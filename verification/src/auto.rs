//! The stepping contract shared by every automaton walker.

use vstd::prelude::*;

verus! {

/// Capability interface of an automaton walker: advance one symbol, test
/// whether advancing is currently legal, query acceptance, and two derived
/// bulk operations over whole symbol sequences.
///
/// Each implementation pins the meaning of the methods down through its own
/// definitions of the spec functions.
pub trait Auto: Sized {
    type Trans;

    /// Internal consistency of the walker.
    spec fn inv(&self) -> bool;

    /// Whether the walker currently accepts.
    spec fn accepting_now(&self) -> bool;

    /// Whether advancing on `trans` is currently legal.
    spec fn steppable(&self, trans: Self::Trans) -> bool;

    /// How one step on `trans` relates the walker before to the walker after.
    spec fn step_rel(&self, trans: Self::Trans, next: Self) -> bool;

    /// What `test` returns on `seq`.
    spec fn runs_to(&self, seq: Seq<Self::Trans>) -> bool;

    /// What `search` returns on `seq`.
    spec fn finds_prefix(&self, seq: Seq<Self::Trans>) -> bool;

    /// Consumes one symbol, advancing the internal state.
    fn trigger(&mut self, trans: &Self::Trans)
        requires
            old(self).inv(),
            old(self).steppable(*trans),
        ensures
            final(self).inv(),
            old(self).step_rel(*trans, *final(self)),
    ;

    /// Reports whether `trigger` on this symbol is currently meaningful,
    /// without performing the transition.
    fn test_trigger(&self, trans: &Self::Trans) -> (r: bool)
        requires
            self.inv(),
        ensures
            r == self.steppable(*trans),
    ;

    /// Whether the walker currently accepts.
    fn is_accepted(&self) -> (r: bool)
        requires
            self.inv(),
        ensures
            r == self.accepting_now(),
    ;

    /// Whole-sequence matching: false as soon as a step is illegal, else
    /// acceptance after the whole sequence was consumed.
    fn test(&mut self, seq: &[Self::Trans]) -> (r: bool)
        requires
            old(self).inv(),
        ensures
            final(self).inv(),
            r == old(self).runs_to(seq@),
    ;

    /// Prefix search: true when acceptance is observed at some prefix
    /// boundary of `seq` before a step fails.
    fn search(&mut self, seq: &[Self::Trans]) -> (r: bool)
        requires
            old(self).inv(),
        ensures
            final(self).inv(),
            r == old(self).finds_prefix(seq@),
    ;
}

} // verus!
