//! The items that a text falls into when it is cut at every occurrence of a
//! delimiter, found from left to right, and what holds of them.

use crate::occurrence::{
    first_occurrence, lemma_first_occurrence_sound, lemma_occurs_at_concat, occurs, occurs_at,
};
use vstd::prelude::*;

verus! {

/// What stands in `text` behind the delimiter that occurs at `at`.
pub open spec fn behind(text: Seq<char>, delimiter: Seq<char>, at: int) -> Seq<char> {
    text.subrange(at + delimiter.len(), text.len() as int)
}

/// The items of `text`: what stands before the leftmost delimiter, then the
/// items of what stands behind it; a text without delimiter is its own single
/// item.
pub open spec fn pieces(text: Seq<char>, delimiter: Seq<char>) -> Seq<Seq<char>>
    decreases text.len(),
    via pieces_decreases
{
    match first_occurrence(text, delimiter) {
        Some(at) => seq![text.subrange(0, at)] + pieces(behind(text, delimiter, at), delimiter),
        None => seq![text],
    }
}

#[via_fn]
proof fn pieces_decreases(text: Seq<char>, delimiter: Seq<char>) {
    lemma_first_occurrence_sound(text, delimiter);
}

/// How often `delimiter` is found in `text` by a scan from left to right that
/// goes on behind each occurrence it finds.
pub open spec fn occurrences(text: Seq<char>, delimiter: Seq<char>) -> nat
    decreases text.len(),
    via occurrences_decreases
{
    match first_occurrence(text, delimiter) {
        Some(at) => 1 + occurrences(behind(text, delimiter, at), delimiter),
        None => 0,
    }
}

#[via_fn]
proof fn occurrences_decreases(text: Seq<char>, delimiter: Seq<char>) {
    lemma_first_occurrence_sound(text, delimiter);
}

/// The items written one after another with `delimiter` between each two.
pub open spec fn join(items: Seq<Seq<char>>, delimiter: Seq<char>) -> Seq<char>
    decreases items.len(),
{
    if items.len() == 0 {
        Seq::empty()
    } else if items.len() == 1 {
        items[0]
    } else {
        items[0] + delimiter + join(items.drop_first(), delimiter)
    }
}

/// A text always has a first item.
pub proof fn lemma_pieces_nonempty(text: Seq<char>, delimiter: Seq<char>)
    ensures
        pieces(text, delimiter).len() >= 1,
{
}

/// Joining the items of a text with the delimiter gives the text back.
pub proof fn lemma_join_pieces(text: Seq<char>, delimiter: Seq<char>)
    ensures
        join(pieces(text, delimiter), delimiter) == text,
    decreases text.len(),
{
    lemma_first_occurrence_sound(text, delimiter);
    match first_occurrence(text, delimiter) {
        Some(at) => {
            let head = text.subrange(0, at);
            let rest = behind(text, delimiter, at);
            let tail = pieces(rest, delimiter);
            lemma_join_pieces(rest, delimiter);
            lemma_pieces_nonempty(rest, delimiter);
            assert((seq![head] + tail).drop_first() =~= tail);
            lemma_occurs_at_concat(text, delimiter, at);
        },
        None => {},
    }
}

/// A text has one item more than it has delimiters.
pub proof fn lemma_pieces_len(text: Seq<char>, delimiter: Seq<char>)
    ensures
        pieces(text, delimiter).len() == occurrences(text, delimiter) + 1,
    decreases text.len(),
{
    lemma_first_occurrence_sound(text, delimiter);
    match first_occurrence(text, delimiter) {
        Some(at) => {
            lemma_pieces_len(behind(text, delimiter, at), delimiter);
        },
        None => {},
    }
}

/// A text has at most one item more than it has characters.
pub proof fn lemma_pieces_bounded(text: Seq<char>, delimiter: Seq<char>)
    ensures
        pieces(text, delimiter).len() <= text.len() + 1,
    decreases text.len(),
{
    lemma_first_occurrence_sound(text, delimiter);
    match first_occurrence(text, delimiter) {
        Some(at) => {
            lemma_pieces_bounded(behind(text, delimiter, at), delimiter);
        },
        None => {},
    }
}

/// No item holds the delimiter.
pub proof fn lemma_pieces_hold_no_delimiter(text: Seq<char>, delimiter: Seq<char>, index: int)
    requires
        0 <= index < pieces(text, delimiter).len(),
    ensures
        !occurs(pieces(text, delimiter)[index], delimiter),
    decreases text.len(),
{
    lemma_first_occurrence_sound(text, delimiter);
    match first_occurrence(text, delimiter) {
        Some(at) => {
            let head = text.subrange(0, at);
            if index == 0 {
                assert forall|j: int| !occurs_at(head, delimiter, j) by {
                    if occurs_at(head, delimiter, j) {
                        assert forall|k: int| 0 <= k < delimiter.len() implies text[j + k]
                            == #[trigger] delimiter[k] by {
                            assert(head[j + k] == delimiter[k]);
                        }
                        assert(occurs_at(text, delimiter, j));
                    }
                }
            } else {
                lemma_pieces_hold_no_delimiter(behind(text, delimiter, at), delimiter, index - 1);
            }
        },
        None => {},
    }
}

} // verus!
