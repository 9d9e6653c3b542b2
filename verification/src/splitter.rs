//! The splitter: a cursor over a text that hands out one item per step.

use crate::occurrence::{first_occurrence, lemma_first_occurrence_sound};
use crate::pieces::{behind, join, lemma_join_pieces, lemma_pieces_len, occurrences, pieces};
use crate::search::split_once;
use vstd::prelude::*;

verus! {

/// What a splitter stands for.
pub struct SplitState {
    /// The part of the text that no item has been taken from yet; `None` once
    /// the last item is out.
    pub remainder: Option<Seq<char>>,
    /// The delimiter, which never changes.
    pub delimiter: Seq<char>,
}

impl SplitState {
    /// The state of a splitter that has handed out nothing of `text` yet.
    pub open spec fn fresh(text: Seq<char>, delimiter: Seq<char>) -> SplitState {
        SplitState { remainder: Some(text), delimiter }
    }

    /// The item that the next step hands out: what stands before the leftmost
    /// delimiter in the remainder, or the whole remainder where there is no
    /// delimiter in it; nothing once the last item is out.
    pub open spec fn item(self) -> Option<Seq<char>> {
        match self.remainder {
            Some(rest) => match first_occurrence(rest, self.delimiter) {
                Some(at) => Some(rest.subrange(0, at)),
                None => Some(rest),
            },
            None => None,
        }
    }

    /// The state that the next step leaves: the remainder begins behind the
    /// leftmost delimiter, or is gone where there was no delimiter in it.
    pub open spec fn advance(self) -> SplitState {
        match self.remainder {
            Some(rest) => match first_occurrence(rest, self.delimiter) {
                Some(at) => SplitState {
                    remainder: Some(behind(rest, self.delimiter, at)),
                    delimiter: self.delimiter,
                },
                None => SplitState { remainder: None, delimiter: self.delimiter },
            },
            None => self,
        }
    }

    /// The state after so many steps.
    pub open spec fn after(self, steps: nat) -> SplitState
        decreases steps,
    {
        if steps == 0 {
            self
        } else {
            self.advance().after((steps - 1) as nat)
        }
    }

    /// All the items still to come, in the order of the steps.
    pub open spec fn pending(self) -> Seq<Seq<char>> {
        match self.remainder {
            Some(rest) => pieces(rest, self.delimiter),
            None => Seq::empty(),
        }
    }
}

/// The texts that a sequence of string slices holds.
pub open spec fn texts(items: Seq<&str>) -> Seq<Seq<char>> {
    Seq::new(items.len(), |i: int| items[i]@)
}

/// Splits a text on a delimiter, one item per call of [`StrSplit::next`]. Each
/// item is borrowed from the text; nothing is copied.
///
/// A delimiter at the very start gives an empty first item, two delimiters in
/// a row an empty item between them, a delimiter at the very end an empty last
/// item; the empty text has one item, which is empty. An empty delimiter
/// occurs nowhere, so with it the whole text is the one item.
pub struct StrSplit<'a> {
    remainder: Option<&'a str>,
    delimiter: &'a str,
}

impl<'a> View for StrSplit<'a> {
    type V = SplitState;

    closed spec fn view(&self) -> SplitState {
        SplitState {
            remainder: match self.remainder {
                Some(rest) => Some(rest@),
                None => None,
            },
            delimiter: self.delimiter@,
        }
    }
}

impl<'a> StrSplit<'a> {
    /// A splitter over the whole of `haystack`.
    pub fn new(haystack: &'a str, delimiter: &'a str) -> (split: Self)
        ensures
            split@ == SplitState::fresh(haystack@, delimiter@),
    {
        StrSplit { remainder: Some(haystack), delimiter }
    }

    /// Hands out the next item and moves the remainder behind the delimiter
    /// that ended it. The item that reaches the end of the text is the last:
    /// from then on every call returns `None`.
    pub fn next(&mut self) -> (item: Option<&'a str>)
        ensures
            match item {
                Some(piece) => old(self)@.item() == Some(piece@),
                None => old(self)@.item() is None,
            },
            final(self)@ == old(self)@.advance(),
            item is None <==> old(self)@.remainder is None,
            item is None ==> final(self)@ == old(self)@,
            old(self)@.pending() == match item {
                Some(piece) => seq![piece@] + final(self)@.pending(),
                None => Seq::empty(),
            },
    {
        proof {
            lemma_pending_unfolds(self@);
        }
        match self.remainder {
            Some(rest) => match split_once(rest, self.delimiter) {
                Some((before, after)) => {
                    self.remainder = Some(after);
                    Some(before)
                },
                None => {
                    self.remainder = None;
                    Some(rest)
                },
            },
            None => None,
        }
    }

    /// Takes all the items that are still to come, in order. Joined with the
    /// delimiter they are the remainder, and they are one more than the
    /// delimiters found in it.
    pub fn collect(self) -> (items: Vec<&'a str>)
        ensures
            texts(items@) == self@.pending(),
            match self@.remainder {
                Some(rest) => join(texts(items@), self@.delimiter) == rest && items@.len()
                    == occurrences(rest, self@.delimiter) + 1,
                None => items@.len() == 0,
            },
    {
        proof {
            if let Some(rest) = self@.remainder {
                lemma_join_pieces(rest, self@.delimiter);
                lemma_pieces_len(rest, self@.delimiter);
            }
        }
        let mut split = self;
        let mut items: Vec<&'a str> = Vec::new();
        assert(texts(items@) + split@.pending() =~= self@.pending());
        loop
            invariant
                texts(items@) + split@.pending() == self@.pending(),
            ensures
                texts(items@) == self@.pending(),
            decreases split@.pending().len(),
        {
            let ghost taken = items@;
            match split.next() {
                Some(piece) => {
                    items.push(piece);
                    assert(texts(items@) =~= texts(taken) + seq![piece@]);
                    assert(texts(items@) + split@.pending() =~= texts(taken) + (seq![piece@]
                        + split@.pending()));
                },
                None => {
                    assert(texts(items@) + Seq::<Seq<char>>::empty() =~= texts(items@));
                    break ;
                },
            }
        }
        items
    }
}

/// The items still to come are the next item and then those still to come
/// after the step.
pub proof fn lemma_pending_unfolds(state: SplitState)
    ensures
        state.pending() == match state.item() {
            Some(piece) => seq![piece] + state.advance().pending(),
            None => Seq::empty(),
        },
{
    match state.remainder {
        Some(rest) => {
            assert(seq![rest] =~= seq![rest] + Seq::<Seq<char>>::empty());
        },
        None => {},
    }
}

/// The steps hand out the items still to come, one by one and in order, and
/// after the last of them nothing.
pub proof fn lemma_steps_hand_out_pending(state: SplitState, steps: nat)
    ensures
        state.after(steps).item() == if steps < state.pending().len() {
            Some(state.pending()[steps as int])
        } else {
            None
        },
        state.after(steps).pending() == if steps <= state.pending().len() {
            state.pending().skip(steps as int)
        } else {
            Seq::empty()
        },
    decreases steps,
{
    lemma_pending_unfolds(state);
    if steps == 0 {
        assert(state.pending().skip(0) =~= state.pending());
    } else {
        let next = state.advance();
        lemma_steps_hand_out_pending(next, (steps - 1) as nat);
        if state.item() is Some {
            if steps <= state.pending().len() {
                assert(next.pending().skip(steps - 1) =~= state.pending().skip(steps as int));
            }
        }
    }
}

/// A fresh splitter has as many items to hand out as the text has delimiters,
/// and one more; joined with the delimiter they give the text back.
pub proof fn lemma_fresh_pending(text: Seq<char>, delimiter: Seq<char>)
    ensures
        SplitState::fresh(text, delimiter).pending() == pieces(text, delimiter),
        SplitState::fresh(text, delimiter).pending().len() == occurrences(text, delimiter) + 1,
        join(SplitState::fresh(text, delimiter).pending(), delimiter) == text,
{
    lemma_pieces_len(text, delimiter);
    lemma_join_pieces(text, delimiter);
}

/// Once a step has handed out nothing, no later step hands out anything, and
/// the state stays as it is.
pub proof fn lemma_exhaustion_is_terminal(state: SplitState, steps: nat)
    requires
        state.item() is None,
    ensures
        state.after(steps) == state,
        state.after(steps).item() is None,
    decreases steps,
{
    if steps > 0 {
        lemma_exhaustion_is_terminal(state, (steps - 1) as nat);
    }
}

/// Two splitters made from the same text and delimiter hand out the same
/// items, step for step: the items of the text.
pub proof fn lemma_same_inputs_same_items(
    first: StrSplit,
    second: StrSplit,
    text: Seq<char>,
    delimiter: Seq<char>,
    steps: nat,
)
    requires
        first@ == SplitState::fresh(text, delimiter),
        second@ == SplitState::fresh(text, delimiter),
    ensures
        first@.after(steps).item() == second@.after(steps).item(),
        first@.pending() == second@.pending(),
        first@.pending() == pieces(text, delimiter),
{
}

/// After any number of steps the delimiter is the same, and the remainder is
/// an end of the remainder that the steps began with.
pub proof fn lemma_remainder_is_suffix(state: SplitState, steps: nat)
    ensures
        state.after(steps).delimiter == state.delimiter,
        state.after(steps).remainder matches Some(rest) ==> state.remainder matches Some(text)
            && exists|from: int|
            0 <= from <= text.len() && rest == #[trigger] text.subrange(from, text.len() as int),
    decreases steps,
{
    if steps == 0 {
        if let Some(text) = state.remainder {
            assert(text == text.subrange(0, text.len() as int));
        }
    } else {
        let next = state.advance();
        lemma_remainder_is_suffix(next, (steps - 1) as nat);
        if let Some(rest) = state.after(steps).remainder {
            let text = state.remainder->Some_0;
            let mid = next.remainder->Some_0;
            lemma_first_occurrence_sound(text, state.delimiter);
            let at = first_occurrence(text, state.delimiter)->Some_0;
            let cut = at + state.delimiter.len();
            let from = choose|from: int|
                0 <= from <= mid.len() && rest == #[trigger] mid.subrange(from, mid.len() as int);
            assert(rest =~= text.subrange(cut + from, text.len() as int));
        }
    }
}

} // verus!
