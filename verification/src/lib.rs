//! Finite-automaton construction and execution.
//!
//! The crate builds nondeterministic finite automata (NFAs) from
//! regular-expression trees ([`re`]), runs them symbol by symbol ([`nfa`]),
//! and converts them into deterministic finite automata (DFAs) by subset
//! construction ([`algo`]).
//!
//! The crate root holds a minimal DFA variant with labeled transitions only;
//! the richer DFA with a per-state fallback edge lives in [`dfa`].
//!
//! State and symbol types are generic.  Contracts that compare them require
//! vstd's `obeys_concrete_eq`, which ties the type's `==` to mathematical
//! equality.  vstd's equality laws establish it for the primitive integer
//! types and tuples of them; for other label types, such as `char` or
//! `&str`, vstd offers no such law yet, so only unverified callers can use
//! them.

mod support;

pub mod auto;
pub mod dfa;
pub mod nfa;
pub mod algo;
pub mod re;

use vstd::prelude::*;

verus! {

use vstd::laws_eq::obeys_concrete_eq;
use crate::support::{seq_has, set_insert};
use crate::dfa::{DfaShape, edges_map, edges_key_unique, lemma_edges_map_dom, lemma_edges_map_at,
    lemma_edges_map_len};

/// Mutable staging structure for the minimal DFA: labeled transitions and
/// accept states only.
#[derive(Debug, Clone, PartialEq, Eq)]
pub struct DFAutoBuilder<S, T> {
    graph: Vec<(S, T, S)>,
    start_state: S,
    accept_state_set: Vec<S>,
}

/// Immutable description of the minimal DFA.
#[derive(Debug, Clone, PartialEq, Eq)]
pub struct DFAutoBlueprint<S, T> {
    graph: Vec<(S, T, S)>,
    start_state: S,
    accept_state_set: Vec<S>,
}

impl<S, T> View for DFAutoBuilder<S, T> {
    type V = DfaShape<S, T>;

    closed spec fn view(&self) -> DfaShape<S, T> {
        DfaShape {
            start: self.start_state,
            accepts: self.accept_state_set@.to_set(),
            plain: edges_map(self.graph@),
            fallback: Map::<S, S>::empty(),
        }
    }
}

impl<S, T> View for DFAutoBlueprint<S, T> {
    type V = DfaShape<S, T>;

    closed spec fn view(&self) -> DfaShape<S, T> {
        DfaShape {
            start: self.start_state,
            accepts: self.accept_state_set@.to_set(),
            plain: edges_map(self.graph@),
            fallback: Map::<S, S>::empty(),
        }
    }
}

impl<S: Copy + Eq, T: Copy + Eq> DFAutoBuilder<S, T> {
    /// Functional transition table and a duplicate-free accept list.
    pub closed spec fn wf(&self) -> bool {
        &&& edges_key_unique(self.graph@)
        &&& self.accept_state_set@.no_duplicates()
    }

    /// A fresh builder with the given start state and nothing else.
    pub fn with_start_state(start_state: S) -> (r: Self)
        ensures
            r.wf(),
            r@ == (DfaShape {
                start: start_state,
                accepts: Set::<S>::empty(),
                plain: Map::<(S, T), S>::empty(),
                fallback: Map::<S, S>::empty(),
            }),
    {
        let r = Self { graph: Vec::new(), start_state, accept_state_set: Vec::new() };
        proof {
            assert(r.accept_state_set@.to_set() =~= Set::<S>::empty());
        }
        r
    }

    /// Registers the one destination of `(from, trans)`.  A second
    /// registration is allowed only when it names the same destination, which
    /// the precondition demands; registering a conflicting destination is a
    /// fatal construction error.
    pub fn trans(self, from: S, trans: T, to: S) -> (r: Self)
        requires
            obeys_concrete_eq::<S>(),
            obeys_concrete_eq::<T>(),
            self.wf(),
            self@.plain.dom().contains((from, trans)) ==> self@.plain[(from, trans)] == to,
        ensures
            r.wf(),
            r@ == (DfaShape { plain: self@.plain.insert((from, trans), to), ..self@ }),
    {
        let mut this = self;
        let ghost s0 = this.graph@;
        let mut i: usize = 0;
        while i < this.graph.len()
            invariant
                obeys_concrete_eq::<S>(),
                obeys_concrete_eq::<T>(),
                this == self,
                this.wf(),
                s0 == this.graph@,
                edges_key_unique(s0),
                self@.plain.dom().contains((from, trans)) ==> self@.plain[(from, trans)] == to,
                i <= s0.len(),
                forall|k: int| 0 <= k < i ==> !(#[trigger] s0[k].0 == from && s0[k].1 == trans),
            decreases s0.len() - i,
        {
            proof {
                reveal(vstd::laws_eq::obeys_concrete_eq);
            }
            let (f, l, _t) = this.graph[i];
            if f == from && l == trans {
                proof {
                    assert(forall|j: int|
                        i < j < s0.len() ==> !(#[trigger] s0[j].0 == s0[i as int].0 && s0[j].1
                            == s0[i as int].1));
                    lemma_edges_map_at(s0, i as int);
                    lemma_edges_map_dom(s0, (from, trans));
                    assert(this@.plain.insert((from, trans), to) =~= this@.plain);
                }
                return this;
            }
            i += 1;
        }
        proof {
            assert(this.graph@.push((from, trans, to)).drop_last() =~= this.graph@);
            assert(edges_key_unique(this.graph@.push((from, trans, to))));
        }
        this.graph.push((from, trans, to));
        this
    }

    /// Marks a state as accepting; registering it twice changes nothing.
    pub fn accept(self, state: S) -> (r: Self)
        requires
            obeys_concrete_eq::<S>(),
            self.wf(),
        ensures
            r.wf(),
            r@ == (DfaShape { accepts: self@.accepts.insert(state), ..self@ }),
    {
        let mut this = self;
        set_insert(&mut this.accept_state_set, state);
        this
    }

    /// Seals the builder into an immutable blueprint with the same content.
    pub fn finalize(self) -> (r: DFAutoBlueprint<S, T>)
        requires
            self.wf(),
        ensures
            r.wf(),
            r@ == self@,
    {
        DFAutoBlueprint {
            graph: self.graph,
            start_state: self.start_state,
            accept_state_set: self.accept_state_set,
        }
    }
}

impl<S: Copy + Eq, T: Copy + Eq> DFAutoBlueprint<S, T> {
    /// Functional transition table and a duplicate-free accept list.
    pub closed spec fn wf(&self) -> bool {
        &&& edges_key_unique(self.graph@)
        &&& self.accept_state_set@.no_duplicates()
    }

    /// The designated start state.
    pub fn start_state(&self) -> (r: &S)
        ensures
            *r == self@.start,
    {
        &self.start_state
    }

    /// The accept states, without duplicates.
    pub fn accept_state_set(&self) -> (r: &Vec<S>)
        ensures
            r@.to_set() == self@.accepts,
            self.wf() ==> r@.no_duplicates(),
    {
        &self.accept_state_set
    }

    /// Every registered transition, each exactly once.
    pub fn iterate_transitions(&self) -> (r: Vec<(S, T, S)>)
        requires
            self.wf(),
        ensures
            r@.len() == self@.plain.dom().len(),
            edges_key_unique(r@),
            edges_map(r@) == self@.plain,
            forall|i: int|
                0 <= i < r@.len() ==> self@.plain.dom().contains((#[trigger] r@[i].0, r@[i].1))
                    && self@.plain[(r@[i].0, r@[i].1)] == r@[i].2,
    {
        let mut r: Vec<(S, T, S)> = Vec::new();
        let mut i: usize = 0;
        while i < self.graph.len()
            invariant
                i <= self.graph@.len(),
                r@ == self.graph@.take(i as int),
            decreases self.graph@.len() - i,
        {
            let (f, l, t) = self.graph[i];
            r.push((f, l, t));
            proof {
                assert(r@ =~= self.graph@.take(i + 1));
            }
            i += 1;
        }
        proof {
            assert(r@ =~= self.graph@);
            lemma_edges_map_len(self.graph@);
            assert forall|i: int| 0 <= i < r@.len() implies self@.plain.dom().contains(
                (#[trigger] r@[i].0, r@[i].1),
            ) && self@.plain[(r@[i].0, r@[i].1)] == r@[i].2 by {
                assert(forall|j: int|
                    i < j < self.graph@.len() ==> !(#[trigger] self.graph@[j].0
                        == self.graph@[i].0 && self.graph@[j].1 == self.graph@[i].1));
                lemma_edges_map_at(self.graph@, i);
            }
        }
        r
    }

    /// A fresh walker positioned on the start state.
    pub fn create(&self) -> (r: DFAuto<S, T>)
        ensures
            r.bp() == self,
            r@ == self@.start,
    {
        DFAuto { blueprint: self, current_state: self.start_state }
    }
}

/// A live walker over a minimal DFA blueprint.
#[derive(Debug, Clone, PartialEq, Eq)]
pub struct DFAuto<'b, S, T> {
    blueprint: &'b DFAutoBlueprint<S, T>,
    current_state: S,
}

impl<'b, S: Copy + Eq, T: Copy + Eq> View for DFAuto<'b, S, T> {
    type V = S;

    closed spec fn view(&self) -> S {
        self.current_state
    }
}

impl<'b, S: Copy + Eq, T: Copy + Eq> DFAuto<'b, S, T> {
    /// The blueprint this walker runs over.
    pub closed spec fn bp(&self) -> &'b DFAutoBlueprint<S, T> {
        self.blueprint
    }

    /// The state the walker currently occupies.
    pub fn current_state(&self) -> (r: &S)
        ensures
            *r == self@,
    {
        &self.current_state
    }

    /// Whether the current state is an accept state.
    pub fn is_accepted(&self) -> (r: bool)
        requires
            obeys_concrete_eq::<S>(),
        ensures
            r == self.bp()@.accepts.contains(self@),
    {
        seq_has(&self.blueprint.accept_state_set, self.current_state)
    }

    /// Whether a transition is registered for the current state and `trans`.
    pub fn test_trigger(&self, trans: &T) -> (r: bool)
        requires
            obeys_concrete_eq::<S>(),
            obeys_concrete_eq::<T>(),
            self.bp().wf(),
        ensures
            r == self.bp()@.plain.dom().contains((self@, *trans)),
    {
        self.find_trans(trans).is_some()
    }

    /// The destination registered for the current state and `trans`, when
    /// one exists.
    fn find_trans(&self, trans: &T) -> (r: Option<S>)
        requires
            obeys_concrete_eq::<S>(),
            obeys_concrete_eq::<T>(),
            self.bp().wf(),
        ensures
            r.is_some() == self.bp()@.plain.dom().contains((self@, *trans)),
            r.is_some() ==> r.unwrap() == self.bp()@.plain[(self@, *trans)],
    {
        let bp = self.blueprint;
        let ghost s0 = bp.graph@;
        let mut i: usize = 0;
        while i < bp.graph.len()
            invariant
                obeys_concrete_eq::<S>(),
                obeys_concrete_eq::<T>(),
                bp == self.blueprint,
                s0 == bp.graph@,
                edges_key_unique(s0),
                i <= s0.len(),
                forall|k: int| 0 <= k < i ==> !(#[trigger] s0[k].0 == self@ && s0[k].1 == *trans),
            decreases s0.len() - i,
        {
            proof {
                reveal(vstd::laws_eq::obeys_concrete_eq);
            }
            let (f, l, t) = bp.graph[i];
            if f == self.current_state && l == *trans {
                proof {
                    assert(forall|j: int|
                        i < j < s0.len() ==> !(#[trigger] s0[j].0 == s0[i as int].0 && s0[j].1
                            == s0[i as int].1));
                    lemma_edges_map_at(s0, i as int);
                }
                return Some(t);
            }
            i += 1;
        }
        proof {
            lemma_edges_map_dom(s0, (self@, *trans));
        }
        None
    }

    /// Consumes one symbol along the registered transition.
    pub fn trigger(&mut self, trans: &T)
        requires
            obeys_concrete_eq::<S>(),
            obeys_concrete_eq::<T>(),
            old(self).bp().wf(),
            old(self).bp()@.plain.dom().contains((old(self)@, *trans)),
        ensures
            final(self).bp() == old(self).bp(),
            final(self)@ == old(self).bp()@.plain[(old(self)@, *trans)],
    {
        let next = match self.find_trans(trans) {
            Some(t) => t,
            None => {
                proof {
                    assert(false);
                }
                self.current_state
            },
        };
        self.current_state = next;
    }
}

} // verus!
