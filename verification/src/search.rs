//! Searching for a needle: in a byte slice, and in a text by way of its bytes.

use crate::encoding::{lemma_bytes_to_chars, lemma_first_bytes_to_chars, lemma_no_bytes_no_chars};
use crate::occurrence::{
    first_occurrence, lemma_first_occurrence_is, lemma_first_occurrence_sound, occurs_at,
};
use vstd::prelude::*;
use vstd::string::*;
use vstd::utf8::*;

verus! {

/// Whether `hay` holds `needle` at offset `at`. An empty needle is held
/// nowhere.
pub fn holds_at(hay: &[u8], needle: &[u8], at: usize) -> (held: bool)
    ensures
        held == occurs_at(hay@, needle@, at as int),
{
    let n: usize = hay.len();
    let m: usize = needle.len();
    if m == 0 || m > n || at > n - m {
        return false;
    }
    let mut k: usize = 0;
    while k < m
        invariant
            n == hay@.len(),
            m == needle@.len(),
            k <= m,
            at + m <= n,
            forall|j: int| 0 <= j < k ==> hay@[at + j] == #[trigger] needle@[j],
        decreases m - k,
    {
        if hay[at + k] != needle[k] {
            return false;
        }
        k += 1;
    }
    true
}

/// The leftmost offset at which `hay` holds `needle`, if it holds it at all.
/// An empty needle is held nowhere.
pub fn find(hay: &[u8], needle: &[u8]) -> (found: Option<usize>)
    ensures
        first_occurrence(hay@, needle@) == match found {
            Some(at) => Some(at as int),
            None => None::<int>,
        },
{
    let n: usize = hay.len();
    let m: usize = needle.len();
    if m == 0 || m > n {
        return None;
    }
    let last: usize = n - m;
    let mut at: usize = 0;
    while at <= last
        invariant
            n == hay@.len(),
            m == needle@.len(),
            m > 0,
            last == n - m,
            at <= last + 1,
            forall|j: int| 0 <= j < at ==> !occurs_at(hay@, needle@, j),
        decreases last + 1 - at,
    {
        if holds_at(hay, needle, at) {
            proof {
                lemma_first_occurrence_is(hay@, needle@, at as int);
            }
            return Some(at);
        }
        at += 1;
    }
    None
}

/// Cuts `text` at the leftmost occurrence of `delimiter`, and hands out what
/// stands before it and what stands after it, both borrowed from `text`.
/// `None` where the delimiter does not occur; an empty one occurs nowhere.
pub fn split_once<'a>(text: &'a str, delimiter: &str) -> (parts: Option<(&'a str, &'a str)>)
    ensures
        match first_occurrence(text@, delimiter@) {
            Some(at) => parts matches Some((before, after)) && before@ == text@.subrange(0, at)
                && after@ == text@.subrange(at + delimiter@.len(), text@.len() as int),
            None => parts is None,
        },
{
    let bytes = text.as_bytes();
    let pattern = delimiter.as_bytes();
    match find(bytes, pattern) {
        None => {
            proof {
                lemma_first_occurrence_sound(bytes@, pattern@);
                lemma_no_bytes_no_chars(text@, delimiter@);
            }
            None
        },
        Some(at) => {
            proof {
                lemma_first_occurrence_sound(bytes@, pattern@);
                lemma_bytes_to_chars(text@, delimiter@, at as int);
                lemma_first_bytes_to_chars(text@, delimiter@, at as int);
            }
            let (before, tail) = text.split_at(at);
            let (_, after) = tail.split_at(pattern.len());
            proof {
                let end = at + pattern@.len();
                encode_utf8_decode_utf8(before@);
                encode_utf8_decode_utf8(after@);
                assert(after.spec_bytes() =~= bytes@.subrange(end, bytes@.len() as int));
                lemma_first_occurrence_is(text@, delimiter@, before@.len() as int);
            }
            Some((before, after))
        },
    }
}

} // verus!
