//! The lexicon: an `fst::Set` of byte strings, searched with automata.

use fst::{IntoStreamer, Streamer};
use vstd::prelude::*;

verus! {

use super::restrictionner::{checker_run, RestrictionChecker, RestrictionCheckerState};
use super::word_finder::{state_view, ScrabbleAutomata, ScrabbleAutomataState};

/// The set type of the `fst` crate; what it holds is `words`.
#[verifier::external_type_specification]
#[verifier::external_body]
#[verifier::reject_recursive_types(D)]
pub struct ExSet<D>(fst::Set<D>);

/// The words that an `fst::Set` holds.
pub uninterp spec fn words(s: fst::Set<Vec<u8>>) -> Set<Seq<u8>>;

/// Relies on `fst::Set::search_with_state`: its stream walks the set in
/// byte order, feeds each key to the automaton from `start` with `accept`,
/// drops a branch only where `can_match` is false, and yields each key on
/// which `is_match` holds, once, with the state reached.  The restriction
/// automaton's `can_match` is false only on the dead state, from which no key
/// matches.
#[verifier::external_body]
pub(crate) fn search_cross_words(set: &fst::Set<Vec<u8>>, automaton: RestrictionChecker<'_>) -> (r: Vec<(Vec<u8>, Option<RestrictionCheckerState>)>)
    ensures
        forall|i: int| 0 <= i < r@.len() ==> {
            &&& words(*set).contains(#[trigger] r@[i].0@)
            &&& r@[i].1 == checker_run(automaton.prefix@, automaton.suffix@, r@[i].0@)
            &&& r@[i].1 matches Some(RestrictionCheckerState::Done(_))
        },
        forall|w: Seq<u8>| #[trigger] words(*set).contains(w) && (checker_run(automaton.prefix@, automaton.suffix@, w) matches Some(RestrictionCheckerState::Done(_)))
            ==> exists|i: int| 0 <= i < r@.len() && r@[i].0@ == w,
{
    let mut out = Vec::new();
    let mut stream = set.search_with_state(automaton).into_stream();
    while let Some((w, s)) = stream.next() {
        out.push((w.to_vec(), s));
    }
    out
}

/// Relies on `fst::Set::search_with_state`, as above: the stream yields,
/// once each, the keys of the set that the automaton accepts, with the state
/// reached.  The automaton's `can_match` is false only on the dead state.
#[verifier::external_body]
pub(crate) fn search_playable_words(set: &fst::Set<Vec<u8>>, automaton: ScrabbleAutomata<'_>) -> (r: Vec<(Vec<u8>, Option<ScrabbleAutomataState>)>)
    ensures
        forall|i: int| 0 <= i < r@.len() ==> {
            &&& words(*set).contains(#[trigger] r@[i].0@)
            &&& state_view(r@[i].1) == automaton.run_on(r@[i].0@)
            &&& automaton.accepts(r@[i].0@)
        },
        forall|i: int, j: int| 0 <= i < j < r@.len() ==> r@[i].0@ != r@[j].0@,
        forall|w: Seq<u8>| #[trigger] words(*set).contains(w) && automaton.accepts(w) ==> exists|i: int| 0 <= i < r@.len() && r@[i].0@ == w,
{
    let mut out = Vec::new();
    let mut stream = set.search_with_state(automaton).into_stream();
    while let Some((w, s)) = stream.next() {
        out.push((w.to_vec(), s));
    }
    out
}

} // verus!
