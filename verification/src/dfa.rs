//! Deterministic finite automata: builder, immutable blueprint, walker.
//!
//! A DFA blueprint maps each `(state, label)` pair to at most one destination
//! and each state to at most one fallback destination.  The fallback is the
//! default transition for every label not present in the plain table, the
//! compact representation of "any other symbol".

use vstd::prelude::*;

verus! {

use vstd::laws_eq::obeys_concrete_eq;
use crate::support::{seq_has, set_insert};

/// The mathematical content of a DFA: a start state, an accept set, the
/// functional plain transition table, and the fallback table.
#[verifier::reject_recursive_types(S)]
#[verifier::reject_recursive_types(T)]
#[verifier::ext_equal]
pub struct DfaShape<S, T> {
    pub start: S,
    pub accepts: Set<S>,
    pub plain: Map<(S, T), S>,
    pub fallback: Map<S, S>,
}

impl<S, T> DfaShape<S, T> {
    /// Whether a step on `x` from `s` is legal: a plain edge exists, or a
    /// fallback makes every label legal.
    pub open spec fn can_step(self, s: S, x: T) -> bool {
        self.plain.dom().contains((s, x)) || self.fallback.dom().contains(s)
    }

    /// The destination of a step on `x` from `s`: the plain edge when one
    /// exists, else the fallback.
    pub open spec fn step(self, s: S, x: T) -> S {
        if self.plain.dom().contains((s, x)) {
            self.plain[(s, x)]
        } else {
            self.fallback[s]
        }
    }

    /// Whole-sequence matching from `s`: false as soon as a step is illegal,
    /// else acceptance after the whole sequence.
    pub open spec fn test_from(self, s: S, seq: Seq<T>) -> bool
        decreases seq.len(),
    {
        if seq.len() == 0 {
            self.accepts.contains(s)
        } else if !self.can_step(s, seq[0]) {
            false
        } else {
            self.test_from(self.step(s, seq[0]), seq.drop_first())
        }
    }

    /// Prefix search from `s`: acceptance observed at some prefix boundary
    /// before a step fails.
    pub open spec fn search_from(self, s: S, seq: Seq<T>) -> bool
        decreases seq.len(),
    {
        self.accepts.contains(s) || (seq.len() > 0 && self.can_step(s, seq[0])
            && self.search_from(self.step(s, seq[0]), seq.drop_first()))
    }
}

/// The finite map that a sequence of labeled edges denotes, later entries
/// overriding earlier ones.
pub open spec fn edges_map<S, T>(s: Seq<(S, T, S)>) -> Map<(S, T), S>
    decreases s.len(),
{
    if s.len() == 0 {
        Map::empty()
    } else {
        edges_map(s.drop_last()).insert((s.last().0, s.last().1), s.last().2)
    }
}

/// The finite map that a sequence of state pairs denotes.
pub open spec fn pairs_map<S>(s: Seq<(S, S)>) -> Map<S, S>
    decreases s.len(),
{
    if s.len() == 0 {
        Map::empty()
    } else {
        pairs_map(s.drop_last()).insert(s.last().0, s.last().1)
    }
}

/// No two entries of a labeled edge sequence share source state and label.
pub open spec fn edges_key_unique<S, T>(s: Seq<(S, T, S)>) -> bool {
    forall|i: int, j: int|
        0 <= i < j < s.len() ==> !(#[trigger] s[i].0 == #[trigger] s[j].0 && s[i].1 == s[j].1)
}

/// No two entries of a state-pair sequence share their source state.
pub open spec fn pairs_key_unique<S>(s: Seq<(S, S)>) -> bool {
    forall|i: int, j: int| 0 <= i < j < s.len() ==> #[trigger] s[i].0 != #[trigger] s[j].0
}

/// A key is in the domain of `edges_map` exactly when some entry carries it.
pub proof fn lemma_edges_map_dom<S, T>(s: Seq<(S, T, S)>, k: (S, T))
    ensures
        edges_map(s).dom().contains(k) <==> exists|i: int|
            0 <= i < s.len() && #[trigger] s[i].0 == k.0 && s[i].1 == k.1,
    decreases s.len(),
{
    if s.len() > 0 {
        lemma_edges_map_dom(s.drop_last(), k);
        if edges_map(s).dom().contains(k) && !(s.last().0 == k.0 && s.last().1 == k.1) {
            let i = choose|i: int|
                0 <= i < s.drop_last().len() && #[trigger] s.drop_last()[i].0 == k.0
                    && s.drop_last()[i].1 == k.1;
            assert(s[i].0 == k.0 && s[i].1 == k.1);
        }
        if exists|i: int| 0 <= i < s.len() && #[trigger] s[i].0 == k.0 && s[i].1 == k.1 {
            let i = choose|i: int| 0 <= i < s.len() && #[trigger] s[i].0 == k.0 && s[i].1 == k.1;
            if i < s.len() - 1 {
                assert(s.drop_last()[i].0 == k.0 && s.drop_last()[i].1 == k.1);
            }
        }
    }
}

/// The value of `edges_map` at the key of an entry with no later entry for
/// the same key.
pub proof fn lemma_edges_map_at<S, T>(s: Seq<(S, T, S)>, i: int)
    requires
        0 <= i < s.len(),
        forall|j: int| i < j < s.len() ==> !(#[trigger] s[j].0 == s[i].0 && s[j].1 == s[i].1),
    ensures
        edges_map(s).dom().contains((s[i].0, s[i].1)),
        edges_map(s)[(s[i].0, s[i].1)] == s[i].2,
    decreases s.len(),
{
    if i < s.len() - 1 {
        assert(forall|j: int|
            i < j < s.drop_last().len() ==> !(#[trigger] s.drop_last()[j].0 == s.drop_last()[i].0
                && s.drop_last()[j].1 == s.drop_last()[i].1));
        lemma_edges_map_at(s.drop_last(), i);
    }
}

/// A key is in the domain of `pairs_map` exactly when some entry carries it.
pub proof fn lemma_pairs_map_dom<S>(s: Seq<(S, S)>, k: S)
    ensures
        pairs_map(s).dom().contains(k) <==> exists|i: int| 0 <= i < s.len() && #[trigger] s[i].0
            == k,
    decreases s.len(),
{
    if s.len() > 0 {
        lemma_pairs_map_dom(s.drop_last(), k);
        if pairs_map(s).dom().contains(k) && s.last().0 != k {
            let i = choose|i: int|
                0 <= i < s.drop_last().len() && #[trigger] s.drop_last()[i].0 == k;
            assert(s[i].0 == k);
        }
        if exists|i: int| 0 <= i < s.len() && #[trigger] s[i].0 == k {
            let i = choose|i: int| 0 <= i < s.len() && #[trigger] s[i].0 == k;
            if i < s.len() - 1 {
                assert(s.drop_last()[i].0 == k);
            }
        }
    }
}

/// The value of `pairs_map` at the key of an entry with no later entry for
/// the same key.
pub proof fn lemma_pairs_map_at<S>(s: Seq<(S, S)>, i: int)
    requires
        0 <= i < s.len(),
        forall|j: int| i < j < s.len() ==> #[trigger] s[j].0 != s[i].0,
    ensures
        pairs_map(s).dom().contains(s[i].0),
        pairs_map(s)[s[i].0] == s[i].1,
    decreases s.len(),
{
    if i < s.len() - 1 {
        assert(forall|j: int|
            i < j < s.drop_last().len() ==> #[trigger] s.drop_last()[j].0 != s.drop_last()[i].0);
        lemma_pairs_map_at(s.drop_last(), i);
    }
}

/// A key-unique edge sequence denotes a map with one entry per element.
pub proof fn lemma_edges_map_len<S, T>(s: Seq<(S, T, S)>)
    requires
        edges_key_unique(s),
    ensures
        edges_map(s).dom().finite(),
        edges_map(s).dom().len() == s.len(),
    decreases s.len(),
{
    broadcast use vstd::set::group_set_axioms;

    if s.len() > 0 {
        assert(edges_key_unique(s.drop_last()));
        lemma_edges_map_len(s.drop_last());
        lemma_edges_map_dom(s.drop_last(), (s.last().0, s.last().1));
        assert(!edges_map(s.drop_last()).dom().contains((s.last().0, s.last().1))) by {
            if exists|i: int|
                0 <= i < s.drop_last().len() && #[trigger] s.drop_last()[i].0 == s.last().0
                    && s.drop_last()[i].1 == s.last().1 {
                let i = choose|i: int|
                    0 <= i < s.drop_last().len() && #[trigger] s.drop_last()[i].0 == s.last().0
                        && s.drop_last()[i].1 == s.last().1;
                assert(s[i].0 == s.last().0 && s[i].1 == s.last().1);
                assert(false);
            }
        }
    }
}

/// Mutable staging structure that accumulates DFA transitions and accept
/// states before being sealed into a blueprint.
#[derive(Debug, Clone, PartialEq, Eq)]
pub struct DFAutoBuilder<S, T> {
    plain: Vec<(S, T, S)>,
    fallback: Vec<(S, S)>,
    start_state: S,
    accept_state_set: Vec<S>,
}

/// Immutable DFA description; walkers borrow it and never change it.
#[derive(Debug, Clone, PartialEq, Eq)]
pub struct DFAutoBlueprint<S, T> {
    plain: Vec<(S, T, S)>,
    fallback: Vec<(S, S)>,
    start_state: S,
    accept_state_set: Vec<S>,
}

impl<S, T> View for DFAutoBuilder<S, T> {
    type V = DfaShape<S, T>;

    closed spec fn view(&self) -> DfaShape<S, T> {
        DfaShape {
            start: self.start_state,
            accepts: self.accept_state_set@.to_set(),
            plain: edges_map(self.plain@),
            fallback: pairs_map(self.fallback@),
        }
    }
}

impl<S, T> View for DFAutoBlueprint<S, T> {
    type V = DfaShape<S, T>;

    closed spec fn view(&self) -> DfaShape<S, T> {
        DfaShape {
            start: self.start_state,
            accepts: self.accept_state_set@.to_set(),
            plain: edges_map(self.plain@),
            fallback: pairs_map(self.fallback@),
        }
    }
}

impl<S: Copy + Eq, T: Copy + Eq> DFAutoBuilder<S, T> {
    /// Functional tables and a duplicate-free accept list.
    pub closed spec fn wf(&self) -> bool {
        &&& edges_key_unique(self.plain@)
        &&& pairs_key_unique(self.fallback@)
        &&& self.accept_state_set@.no_duplicates()
    }

    /// A fresh builder with the given start state and nothing else.
    pub fn start(start_state: S) -> (r: Self)
        ensures
            r.wf(),
            r@ == (DfaShape {
                start: start_state,
                accepts: Set::<S>::empty(),
                plain: Map::<(S, T), S>::empty(),
                fallback: Map::<S, S>::empty(),
            }),
    {
        let r = Self {
            plain: Vec::new(),
            fallback: Vec::new(),
            start_state,
            accept_state_set: Vec::new(),
        };
        proof {
            assert(r.accept_state_set@.to_set() =~= Set::<S>::empty());
        }
        r
    }

    /// Registers the one destination of `(from, trans)`.  A second
    /// registration is allowed only when it names the same destination, which
    /// the precondition demands; registering a conflicting destination is a
    /// fatal construction error.
    pub fn connect(self, from: S, trans: T, to: S) -> (r: Self)
        requires
            obeys_concrete_eq::<S>(),
            obeys_concrete_eq::<T>(),
            self.wf(),
            self@.plain.dom().contains((from, trans)) ==> self@.plain[(from, trans)] == to,
        ensures
            r.wf(),
            r@ == (DfaShape { plain: self@.plain.insert((from, trans), to), ..self@ }),
    {
        let mut this = self;
        let ghost s0 = this.plain@;
        let mut i: usize = 0;
        while i < this.plain.len()
            invariant
                obeys_concrete_eq::<S>(),
                obeys_concrete_eq::<T>(),
                this == self,
                this.wf(),
                s0 == this.plain@,
                edges_key_unique(s0),
                self@.plain.dom().contains((from, trans)) ==> self@.plain[(from, trans)] == to,
                i <= s0.len(),
                forall|k: int| 0 <= k < i ==> !(#[trigger] s0[k].0 == from && s0[k].1 == trans),
            decreases s0.len() - i,
        {
            proof {
                reveal(vstd::laws_eq::obeys_concrete_eq);
            }
            let (f, l, _t) = this.plain[i];
            if f == from && l == trans {
                proof {
                    assert(forall|j: int|
                        i < j < s0.len() ==> !(#[trigger] s0[j].0 == s0[i as int].0 && s0[j].1
                            == s0[i as int].1));
                    lemma_edges_map_at(s0, i as int);
                    lemma_edges_map_dom(s0, (from, trans));
                    assert(this@.plain.insert((from, trans), to) =~= this@.plain);
                }
                return this;
            }
            i += 1;
        }
        proof {
            assert(this.plain@.push((from, trans, to)).drop_last() =~= this.plain@);
            assert(edges_key_unique(this.plain@.push((from, trans, to))));
        }
        this.plain.push((from, trans, to));
        this
    }

    /// Registers the one fallback destination of `from`.  A conflicting
    /// second registration is likewise a fatal construction error.
    pub fn connect_fallback(self, from: S, to: S) -> (r: Self)
        requires
            obeys_concrete_eq::<S>(),
            self.wf(),
            self@.fallback.dom().contains(from) ==> self@.fallback[from] == to,
        ensures
            r.wf(),
            r@ == (DfaShape { fallback: self@.fallback.insert(from, to), ..self@ }),
    {
        let mut this = self;
        let ghost s0 = this.fallback@;
        let mut i: usize = 0;
        while i < this.fallback.len()
            invariant
                obeys_concrete_eq::<S>(),
                this == self,
                this.wf(),
                s0 == this.fallback@,
                pairs_key_unique(s0),
                self@.fallback.dom().contains(from) ==> self@.fallback[from] == to,
                i <= s0.len(),
                forall|k: int| 0 <= k < i ==> #[trigger] s0[k].0 != from,
            decreases s0.len() - i,
        {
            proof {
                reveal(vstd::laws_eq::obeys_concrete_eq);
            }
            let (f, _t) = this.fallback[i];
            if f == from {
                proof {
                    assert(forall|j: int| i < j < s0.len() ==> #[trigger] s0[j].0 != s0[i as int].0);
                    lemma_pairs_map_at(s0, i as int);
                    lemma_pairs_map_dom(s0, from);
                    assert(this@.fallback.insert(from, to) =~= this@.fallback);
                }
                return this;
            }
            i += 1;
        }
        proof {
            assert(this.fallback@.push((from, to)).drop_last() =~= this.fallback@);
            assert(pairs_key_unique(this.fallback@.push((from, to))));
        }
        this.fallback.push((from, to));
        this
    }

    /// Marks a state as accepting; registering it twice changes nothing.
    pub fn accept(self, state: S) -> (r: Self)
        requires
            obeys_concrete_eq::<S>(),
            self.wf(),
        ensures
            r.wf(),
            r@ == (DfaShape { accepts: self@.accepts.insert(state), ..self@ }),
    {
        let mut this = self;
        set_insert(&mut this.accept_state_set, state);
        this
    }

    /// Seals the builder into an immutable blueprint with the same content.
    pub fn finalize(self) -> (r: DFAutoBlueprint<S, T>)
        requires
            self.wf(),
        ensures
            r.wf(),
            r@ == self@,
    {
        DFAutoBlueprint {
            plain: self.plain,
            fallback: self.fallback,
            start_state: self.start_state,
            accept_state_set: self.accept_state_set,
        }
    }
}

impl<S: Copy + Eq, T: Copy + Eq> DFAutoBlueprint<S, T> {
    /// Functional tables and a duplicate-free accept list.
    pub closed spec fn wf(&self) -> bool {
        &&& edges_key_unique(self.plain@)
        &&& pairs_key_unique(self.fallback@)
        &&& self.accept_state_set@.no_duplicates()
    }

    /// The designated start state.
    pub fn start_state(&self) -> (r: &S)
        ensures
            *r == self@.start,
    {
        &self.start_state
    }

    /// The accept states, without duplicates.
    pub fn accept_state_set(&self) -> (r: &Vec<S>)
        ensures
            r@.to_set() == self@.accepts,
            self.wf() ==> r@.no_duplicates(),
    {
        &self.accept_state_set
    }

    /// Every plain transition, each exactly once; fallback edges are not
    /// part of the listing.
    pub fn iterate_connections(&self) -> (r: Vec<(S, T, S)>)
        requires
            self.wf(),
        ensures
            r@.len() == self@.plain.dom().len(),
            edges_key_unique(r@),
            edges_map(r@) == self@.plain,
            forall|i: int|
                0 <= i < r@.len() ==> self@.plain.dom().contains((#[trigger] r@[i].0, r@[i].1))
                    && self@.plain[(r@[i].0, r@[i].1)] == r@[i].2,
    {
        let mut r: Vec<(S, T, S)> = Vec::new();
        let mut i: usize = 0;
        while i < self.plain.len()
            invariant
                i <= self.plain@.len(),
                r@ == self.plain@.take(i as int),
            decreases self.plain@.len() - i,
        {
            let (f, l, t) = self.plain[i];
            r.push((f, l, t));
            proof {
                assert(r@ =~= self.plain@.take(i + 1));
            }
            i += 1;
        }
        proof {
            assert(r@ =~= self.plain@);
            lemma_edges_map_len(self.plain@);
            assert forall|i: int| 0 <= i < r@.len() implies self@.plain.dom().contains(
                (#[trigger] r@[i].0, r@[i].1),
            ) && self@.plain[(r@[i].0, r@[i].1)] == r@[i].2 by {
                assert(forall|j: int|
                    i < j < self.plain@.len() ==> !(#[trigger] self.plain@[j].0
                        == self.plain@[i].0 && self.plain@[j].1 == self.plain@[i].1));
                lemma_edges_map_at(self.plain@, i);
            }
        }
        r
    }

    /// A fresh walker positioned on the start state.
    pub fn create(&self) -> (r: DFAuto<S, T>)
        ensures
            r.bp() == self,
            r@ == self@.start,
    {
        DFAuto { blueprint: self, current_state: self.start_state }
    }
}

/// A live walker over a DFA blueprint.  It owns only its current state; the
/// blueprint is shared and immutable.
#[derive(Debug, Clone, PartialEq, Eq)]
pub struct DFAuto<'b, S, T> {
    blueprint: &'b DFAutoBlueprint<S, T>,
    current_state: S,
}

impl<'b, S: Copy + Eq, T: Copy + Eq> View for DFAuto<'b, S, T> {
    type V = S;

    closed spec fn view(&self) -> S {
        self.current_state
    }
}

impl<'b, S: Copy + Eq, T: Copy + Eq> DFAuto<'b, S, T> {
    /// The blueprint this walker runs over.
    pub closed spec fn bp(&self) -> &'b DFAutoBlueprint<S, T> {
        self.blueprint
    }

    /// The state the walker currently occupies.
    pub fn current_state(&self) -> (r: &S)
        ensures
            *r == self@,
    {
        &self.current_state
    }

    /// Whether the current state is an accept state.
    pub fn is_accepted(&self) -> (r: bool)
        requires
            obeys_concrete_eq::<S>(),
        ensures
            r == self.bp()@.accepts.contains(self@),
    {
        seq_has(&self.blueprint.accept_state_set, self.current_state)
    }

    /// Whether a step on `trans` is currently legal: a plain edge exists, or
    /// a fallback edge makes every label legal from this state.
    pub fn test_trigger(&self, trans: &T) -> (r: bool)
        requires
            obeys_concrete_eq::<S>(),
            obeys_concrete_eq::<T>(),
            self.bp().wf(),
        ensures
            r == self.bp()@.can_step(self@, *trans),
    {
        let plain_test = self.find_plain(trans).is_some();
        let fallback_test = self.find_fallback().is_some();
        plain_test || fallback_test
    }

    /// The destination of the plain edge for the current state and `trans`,
    /// when one is registered.
    fn find_plain(&self, trans: &T) -> (r: Option<S>)
        requires
            obeys_concrete_eq::<S>(),
            obeys_concrete_eq::<T>(),
            self.bp().wf(),
        ensures
            r.is_some() == self.bp()@.plain.dom().contains((self@, *trans)),
            r.is_some() ==> r.unwrap() == self.bp()@.plain[(self@, *trans)],
    {
        let bp = self.blueprint;
        let ghost s0 = bp.plain@;
        let mut i: usize = 0;
        while i < bp.plain.len()
            invariant
                obeys_concrete_eq::<S>(),
                obeys_concrete_eq::<T>(),
                bp == self.blueprint,
                s0 == bp.plain@,
                edges_key_unique(s0),
                i <= s0.len(),
                forall|k: int| 0 <= k < i ==> !(#[trigger] s0[k].0 == self@ && s0[k].1 == *trans),
            decreases s0.len() - i,
        {
            proof {
                reveal(vstd::laws_eq::obeys_concrete_eq);
            }
            let (f, l, t) = bp.plain[i];
            if f == self.current_state && l == *trans {
                proof {
                    assert(forall|j: int|
                        i < j < s0.len() ==> !(#[trigger] s0[j].0 == s0[i as int].0 && s0[j].1
                            == s0[i as int].1));
                    lemma_edges_map_at(s0, i as int);
                }
                return Some(t);
            }
            i += 1;
        }
        proof {
            lemma_edges_map_dom(s0, (self@, *trans));
        }
        None
    }

    /// The destination of the fallback edge for the current state, when one
    /// is registered.
    fn find_fallback(&self) -> (r: Option<S>)
        requires
            obeys_concrete_eq::<S>(),
            self.bp().wf(),
        ensures
            r.is_some() == self.bp()@.fallback.dom().contains(self@),
            r.is_some() ==> r.unwrap() == self.bp()@.fallback[self@],
    {
        let bp = self.blueprint;
        let ghost s0 = bp.fallback@;
        let mut i: usize = 0;
        while i < bp.fallback.len()
            invariant
                obeys_concrete_eq::<S>(),
                bp == self.blueprint,
                s0 == bp.fallback@,
                pairs_key_unique(s0),
                i <= s0.len(),
                forall|k: int| 0 <= k < i ==> #[trigger] s0[k].0 != self@,
            decreases s0.len() - i,
        {
            proof {
                reveal(vstd::laws_eq::obeys_concrete_eq);
            }
            let (f, t) = bp.fallback[i];
            if f == self.current_state {
                proof {
                    assert(forall|j: int| i < j < s0.len() ==> #[trigger] s0[j].0 != s0[i as int].0);
                    lemma_pairs_map_at(s0, i as int);
                }
                return Some(t);
            }
            i += 1;
        }
        proof {
            lemma_pairs_map_dom(s0, self@);
        }
        None
    }

    /// Consumes one symbol: a registered plain edge is preferred over the
    /// fallback; the fallback routes every other label.
    pub fn trigger(&mut self, trans: &T)
        requires
            obeys_concrete_eq::<S>(),
            obeys_concrete_eq::<T>(),
            old(self).bp().wf(),
            old(self).bp()@.can_step(old(self)@, *trans),
        ensures
            final(self).bp() == old(self).bp(),
            final(self)@ == old(self).bp()@.step(old(self)@, *trans),
    {
        let next = match self.find_plain(trans) {
            Some(t) => t,
            None => {
                match self.find_fallback() {
                    Some(t) => t,
                    None => {
                        proof {
                            assert(false);
                        }
                        self.current_state
                    },
                }
            },
        };
        self.current_state = next;
    }
}

impl<'b, S: Copy + Eq, T: Copy + Eq> crate::auto::Auto for DFAuto<'b, S, T> {
    type Trans = T;

    open spec fn inv(&self) -> bool {
        &&& obeys_concrete_eq::<S>()
        &&& obeys_concrete_eq::<T>()
        &&& self.bp().wf()
    }

    open spec fn accepting_now(&self) -> bool {
        self.bp()@.accepts.contains(self@)
    }

    open spec fn steppable(&self, trans: T) -> bool {
        self.bp()@.can_step(self@, trans)
    }

    open spec fn step_rel(&self, trans: T, next: Self) -> bool {
        next.bp() == self.bp() && next@ == self.bp()@.step(self@, trans)
    }

    open spec fn runs_to(&self, seq: Seq<T>) -> bool {
        self.bp()@.test_from(self@, seq)
    }

    open spec fn finds_prefix(&self, seq: Seq<T>) -> bool {
        self.bp()@.search_from(self@, seq)
    }

    fn trigger(&mut self, trans: &T) {
        DFAuto::trigger(self, trans);
    }

    fn test_trigger(&self, trans: &T) -> (r: bool) {
        DFAuto::test_trigger(self, trans)
    }

    fn is_accepted(&self) -> (r: bool) {
        DFAuto::is_accepted(self)
    }

    fn test(&mut self, seq: &[T]) -> (r: bool) {
        let ghost c0 = self@;
        let ghost bp0 = self.bp();
        proof {
            assert(seq@.skip(0) =~= seq@);
        }
        let mut i: usize = 0;
        while i < seq.len()
            invariant
                self.inv(),
                i <= seq@.len(),
                self.bp() == bp0,
                c0 == old(self)@,
                bp0 == old(self).bp(),
                bp0@.test_from(c0, seq@) == bp0@.test_from(self@, seq@.skip(i as int)),
            decreases seq@.len() - i,
        {
            let ghost rem = seq@.skip(i as int);
            proof {
                assert(rem[0] == seq@[i as int]);
                assert(rem.drop_first() =~= seq@.skip(i + 1));
            }
            if !DFAuto::test_trigger(self, &seq[i]) {
                return false;
            }
            DFAuto::trigger(self, &seq[i]);
            i += 1;
        }
        proof {
            assert(seq@.skip(i as int) =~= Seq::<T>::empty());
        }
        DFAuto::is_accepted(self)
    }

    fn search(&mut self, seq: &[T]) -> (r: bool) {
        let ghost c0 = self@;
        let ghost bp0 = self.bp();
        proof {
            assert(seq@.skip(0) =~= seq@);
        }
        let mut accepted = false;
        let mut i: usize = 0;
        while i < seq.len()
            invariant
                self.inv(),
                i <= seq@.len(),
                self.bp() == bp0,
                c0 == old(self)@,
                bp0 == old(self).bp(),
                bp0@.search_from(c0, seq@) == (accepted || bp0@.search_from(
                    self@,
                    seq@.skip(i as int),
                )),
            decreases seq@.len() - i,
        {
            let ghost rem = seq@.skip(i as int);
            proof {
                assert(rem[0] == seq@[i as int]);
                assert(rem.drop_first() =~= seq@.skip(i + 1));
            }
            if DFAuto::is_accepted(self) {
                accepted = true;
            }
            if !DFAuto::test_trigger(self, &seq[i]) {
                return accepted;
            }
            DFAuto::trigger(self, &seq[i]);
            i += 1;
        }
        proof {
            assert(seq@.skip(i as int) =~= Seq::<T>::empty());
        }
        if accepted {
            true
        } else {
            DFAuto::is_accepted(self)
        }
    }
}

} // verus!
