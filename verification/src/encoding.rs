//! Facts about UTF-8 that carry an occurrence in the bytes of a text over to
//! its characters, and back.

use crate::occurrence::{is_first_occurrence, lemma_occurs_at_concat, occurs_at};
use vstd::prelude::*;
use vstd::utf8::*;

verus! {

/// Encoding goes through concatenation.
pub proof fn lemma_encode_concat(a: Seq<char>, b: Seq<char>)
    ensures
        encode_utf8(a + b) == encode_utf8(a) + encode_utf8(b),
    decreases a.len(),
{
    if a.len() == 0 {
        assert(a + b =~= b);
        assert(encode_utf8(a) + encode_utf8(b) =~= encode_utf8(b));
    } else {
        assert((a + b).drop_first() =~= a.drop_first() + b);
        lemma_encode_concat(a.drop_first(), b);
        let head = encode_scalar(a[0] as u32);
        assert(head + (encode_utf8(a.drop_first()) + encode_utf8(b)) =~= (head + encode_utf8(
            a.drop_first(),
        )) + encode_utf8(b));
    }
}

/// Every character takes at least one byte.
pub proof fn lemma_encode_len(a: Seq<char>)
    ensures
        encode_utf8(a).len() >= a.len(),
    decreases a.len(),
{
    if a.len() > 0 {
        lemma_encode_len(a.drop_first());
    }
}

/// Where a prefix of valid UTF-8 is valid UTF-8 itself, it ends on a character
/// boundary.
pub proof fn lemma_valid_prefix_ends_on_boundary(bytes: Seq<u8>, end: int)
    requires
        valid_utf8(bytes),
        0 <= end <= bytes.len(),
        valid_utf8(bytes.subrange(0, end)),
    ensures
        is_char_boundary(bytes, end),
    decreases end,
{
    if end > 0 {
        let prefix = bytes.subrange(0, end);
        let width = length_of_first_scalar(bytes);
        assert(prefix[0] == bytes[0]);
        assert(length_of_first_scalar(prefix) == width);
        assert(width <= end);
        assert(1 <= width);
        assert(pop_first_scalar(prefix) =~= pop_first_scalar(bytes).subrange(0, end - width));
        lemma_valid_prefix_ends_on_boundary(pop_first_scalar(bytes), end - width);
    }
}

/// An occurrence of valid UTF-8 within valid UTF-8 begins and ends on
/// character boundaries.
pub proof fn lemma_occurrence_on_boundaries(hay: Seq<u8>, needle: Seq<u8>, at: int)
    requires
        valid_utf8(hay),
        valid_utf8(needle),
        occurs_at(hay, needle, at),
    ensures
        is_char_boundary(hay, at),
        is_char_boundary(hay, at + needle.len()),
        valid_utf8(hay.subrange(at, hay.len() as int)),
        is_char_boundary(hay.subrange(at, hay.len() as int), needle.len() as int),
{
    is_char_boundary_start_end_of_seq(needle);
    is_char_boundary_iff_not_is_continuation_byte(needle, 0);
    assert(hay[at + 0] == needle[0]);
    is_char_boundary_iff_not_is_continuation_byte(hay, at);
    valid_utf8_split(hay, at);
    let tail = hay.subrange(at, hay.len() as int);
    lemma_occurs_at_concat(hay, needle, at);
    assert(tail.subrange(0, needle.len() as int) =~= hay.subrange(at, at + needle.len()));
    lemma_valid_prefix_ends_on_boundary(tail, needle.len() as int);
    if at + needle.len() < hay.len() {
        is_char_boundary_iff_not_is_continuation_byte(tail, needle.len() as int);
        assert(tail[needle.len() as int] == hay[at + needle.len()]);
        is_char_boundary_iff_not_is_continuation_byte(hay, at + needle.len());
    } else {
        is_char_boundary_start_end_of_seq(hay);
    }
}

/// Where the needle occurs among the characters of a text, its encoding
/// occurs among the bytes, at the length of what is encoded before it.
pub proof fn lemma_chars_to_bytes(text: Seq<char>, needle: Seq<char>, at: int)
    requires
        occurs_at(text, needle, at),
    ensures
        occurs_at(
            encode_utf8(text),
            encode_utf8(needle),
            encode_utf8(text.subrange(0, at)).len() as int,
        ),
{
    let before = text.subrange(0, at);
    let after = text.subrange(at + needle.len(), text.len() as int);
    lemma_occurs_at_concat(text, needle, at);
    lemma_encode_concat(before + needle, after);
    lemma_encode_concat(before, needle);
    lemma_encode_len(needle);
    let bytes = encode_utf8(text);
    let pattern = encode_utf8(needle);
    let offset = encode_utf8(before).len() as int;
    assert(bytes == encode_utf8(before) + pattern + encode_utf8(after));
    assert(bytes.subrange(offset, offset + pattern.len()) =~= pattern);
    lemma_occurs_at_concat(bytes, pattern, offset);
}

/// Where the encoding of the needle occurs among the bytes of a text, the
/// needle occurs among its characters, and the bytes on either side decode to
/// the characters on either side.
pub proof fn lemma_bytes_to_chars(text: Seq<char>, needle: Seq<char>, at: int)
    requires
        occurs_at(encode_utf8(text), encode_utf8(needle), at),
    ensures
        ({
            let bytes = encode_utf8(text);
            let end = at + encode_utf8(needle).len();
            let before = decode_utf8(bytes.subrange(0, at));
            let after = decode_utf8(bytes.subrange(end, bytes.len() as int));
            &&& is_char_boundary(bytes, at)
            &&& is_char_boundary(bytes.subrange(at, bytes.len() as int), end - at)
            &&& encode_utf8(before) == bytes.subrange(0, at)
            &&& encode_utf8(after) == bytes.subrange(end, bytes.len() as int)
            &&& needle.len() > 0
            &&& text == before + needle + after
            &&& before == text.subrange(0, before.len() as int)
            &&& after == text.subrange((before.len() + needle.len()) as int, text.len() as int)
            &&& occurs_at(text, needle, before.len() as int)
        }),
{
    let bytes = encode_utf8(text);
    let pattern = encode_utf8(needle);
    let end = at + pattern.len();
    let tail = bytes.subrange(at, bytes.len() as int);
    let before = decode_utf8(bytes.subrange(0, at));
    let after = decode_utf8(bytes.subrange(end, bytes.len() as int));
    encode_utf8_valid_utf8(text);
    encode_utf8_valid_utf8(needle);
    lemma_occurrence_on_boundaries(bytes, pattern, at);
    lemma_occurs_at_concat(bytes, pattern, at);
    decode_utf8_split(bytes, at);
    valid_utf8_split(bytes, at);
    decode_utf8_split(tail, pattern.len() as int);
    valid_utf8_split(tail, pattern.len() as int);
    assert(tail.subrange(0, pattern.len() as int) =~= pattern);
    assert(tail.subrange(pattern.len() as int, tail.len() as int) =~= bytes.subrange(
        end,
        bytes.len() as int,
    ));
    encode_utf8_decode_utf8(text);
    encode_utf8_decode_utf8(needle);
    decode_utf8_encode_utf8(bytes.subrange(0, at));
    decode_utf8_encode_utf8(bytes.subrange(end, bytes.len() as int));
    assert(text =~= before + needle + after);
    assert(before =~= text.subrange(0, before.len() as int));
    assert(after =~= text.subrange((before.len() + needle.len()) as int, text.len() as int));
    assert(needle.len() > 0) by {
        if needle.len() == 0 {
            assert(pattern.len() == 0);
        }
    }
    lemma_occurs_at_concat(text, needle, before.len() as int);
}

/// The leftmost occurrence among the bytes is the leftmost among the
/// characters.
pub proof fn lemma_first_bytes_to_chars(text: Seq<char>, needle: Seq<char>, at: int)
    requires
        is_first_occurrence(encode_utf8(text), encode_utf8(needle), at),
    ensures
        is_first_occurrence(
            text,
            needle,
            decode_utf8(encode_utf8(text).subrange(0, at)).len() as int,
        ),
{
    let bytes = encode_utf8(text);
    let before = decode_utf8(bytes.subrange(0, at));
    let first = before.len() as int;
    lemma_bytes_to_chars(text, needle, at);
    assert forall|j: int| 0 <= j < first implies !occurs_at(text, needle, j) by {
        if occurs_at(text, needle, j) {
            lemma_chars_to_bytes(text, needle, j);
            let shorter = text.subrange(0, j);
            let gap = text.subrange(j, first);
            assert(before =~= shorter + gap);
            lemma_encode_concat(shorter, gap);
            lemma_encode_len(gap);
            assert(encode_utf8(shorter).len() < at);
        }
    }
}

/// Where the encoding of the needle occurs nowhere among the bytes, the
/// needle occurs nowhere among the characters.
pub proof fn lemma_no_bytes_no_chars(text: Seq<char>, needle: Seq<char>)
    requires
        forall|j: int| !occurs_at(encode_utf8(text), encode_utf8(needle), j),
    ensures
        forall|j: int| !occurs_at(text, needle, j),
{
    assert forall|j: int| !occurs_at(text, needle, j) by {
        if occurs_at(text, needle, j) {
            lemma_chars_to_bytes(text, needle, j);
        }
    }
}

} // verus!
