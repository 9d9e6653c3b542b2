//! Occurrences of one sequence inside another.

use vstd::prelude::*;

verus! {

/// `needle` is not empty and `hay` holds it at offset `at`.
pub open spec fn occurs_at<T>(hay: Seq<T>, needle: Seq<T>, at: int) -> bool {
    &&& needle.len() > 0
    &&& 0 <= at
    &&& at + needle.len() <= hay.len()
    &&& forall|k: int| 0 <= k < needle.len() ==> hay[at + k] == #[trigger] needle[k]
}

/// `needle` occurs somewhere in `hay`.
pub open spec fn occurs<T>(hay: Seq<T>, needle: Seq<T>) -> bool {
    exists|at: int| occurs_at(hay, needle, at)
}

/// `at` is the leftmost offset at which `needle` occurs in `hay`.
pub open spec fn is_first_occurrence<T>(hay: Seq<T>, needle: Seq<T>, at: int) -> bool {
    &&& occurs_at(hay, needle, at)
    &&& forall|j: int| 0 <= j < at ==> !occurs_at(hay, needle, j)
}

/// The leftmost offset at which `needle` occurs in `hay`, if it occurs at all.
pub open spec fn first_occurrence<T>(hay: Seq<T>, needle: Seq<T>) -> Option<int> {
    if occurs(hay, needle) {
        Some(choose|at: int| is_first_occurrence(hay, needle, at))
    } else {
        None
    }
}

/// Below every occurrence lies a leftmost one.
pub proof fn lemma_leftmost_exists<T>(hay: Seq<T>, needle: Seq<T>, at: int)
    requires
        occurs_at(hay, needle, at),
    ensures
        exists|first: int| first <= at && is_first_occurrence(hay, needle, first),
    decreases at,
{
    if exists|j: int| 0 <= j < at && occurs_at(hay, needle, j) {
        let j = choose|j: int| 0 <= j < at && occurs_at(hay, needle, j);
        lemma_leftmost_exists(hay, needle, j);
        let first = choose|first: int| first <= j && is_first_occurrence(hay, needle, first);
        assert(first <= at && is_first_occurrence(hay, needle, first));
    } else {
        assert(is_first_occurrence(hay, needle, at));
    }
}

/// The leftmost occurrence is the one that `first_occurrence` names.
pub proof fn lemma_first_occurrence_is<T>(hay: Seq<T>, needle: Seq<T>, at: int)
    requires
        is_first_occurrence(hay, needle, at),
    ensures
        first_occurrence(hay, needle) == Some(at),
{
    let chosen = choose|a: int| is_first_occurrence(hay, needle, a);
    assert(is_first_occurrence(hay, needle, chosen));
    if chosen < at {
        assert(!occurs_at(hay, needle, chosen));
    }
    if at < chosen {
        assert(!occurs_at(hay, needle, at));
    }
}

/// What `first_occurrence` names is a leftmost occurrence, and it names one
/// whenever the needle occurs.
pub proof fn lemma_first_occurrence_sound<T>(hay: Seq<T>, needle: Seq<T>)
    ensures
        match first_occurrence(hay, needle) {
            Some(at) => is_first_occurrence(hay, needle, at),
            None => forall|j: int| !occurs_at(hay, needle, j),
        },
{
    if occurs(hay, needle) {
        let at = choose|at: int| occurs_at(hay, needle, at);
        lemma_leftmost_exists(hay, needle, at);
    }
}

/// An occurrence is a gap in a concatenation: the part before, the needle, the
/// part after.
pub proof fn lemma_occurs_at_concat<T>(hay: Seq<T>, needle: Seq<T>, at: int)
    requires
        needle.len() > 0,
        0 <= at,
        at + needle.len() <= hay.len(),
    ensures
        occurs_at(hay, needle, at) <==> hay == hay.subrange(0, at) + needle + hay.subrange(
            at + needle.len(),
            hay.len() as int,
        ),
        occurs_at(hay, needle, at) <==> hay.subrange(at, at + needle.len()) == needle,
{
    let glued = hay.subrange(0, at) + needle + hay.subrange(at + needle.len(), hay.len() as int);
    let window = hay.subrange(at, at + needle.len());
    if occurs_at(hay, needle, at) {
        assert forall|k: int| 0 <= k < needle.len() implies window[k] == needle[k] by {
            assert(hay[at + k] == needle[k]);
        }
        assert(window =~= needle);
        assert(hay =~= glued);
    }
    if hay == glued {
        assert forall|k: int| 0 <= k < needle.len() implies #[trigger] hay[at + k] == needle[k] by {
            assert(glued[at + k] == needle[k]);
        }
    }
    if window == needle {
        assert forall|k: int| 0 <= k < needle.len() implies #[trigger] hay[at + k] == needle[k] by {
            assert(window[k] == hay[at + k]);
        }
    }
}

} // verus!
