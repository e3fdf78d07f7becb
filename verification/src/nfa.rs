//! Nondeterministic finite automata: builder, immutable blueprint, walker.
//!
//! A blueprint holds three transition relations: plain edges labeled with a
//! symbol, void (epsilon) edges traversed without consuming input, and
//! wildcard edges traversed by any single symbol.  A walker owns a current
//! state set that is kept closed under void edges at all times.

use vstd::prelude::*;

verus! {

use vstd::laws_eq::obeys_concrete_eq;
use crate::support::{seq_has, set_insert};

/// The mathematical content of an NFA: a start state, an accept set, and the
/// three transition relations as sets of edges.
#[verifier::reject_recursive_types(S)]
#[verifier::reject_recursive_types(T)]
#[verifier::ext_equal]
pub struct NfaShape<S, T> {
    pub start: S,
    pub accepts: Set<S>,
    pub plain: Set<(S, T, S)>,
    pub voids: Set<(S, S)>,
    pub wilds: Set<(S, S)>,
}

/// Whether `a` is closed under single void-edge steps.
pub open spec fn void_closed<S>(voids: Set<(S, S)>, a: Set<S>) -> bool {
    forall|s: S, t: S| a.contains(s) && #[trigger] voids.contains((s, t)) ==> a.contains(t)
}

/// Whether `to` is reachable from `from` by exactly `k` void edges.
pub open spec fn reach_n<S>(voids: Set<(S, S)>, from: S, to: S, k: nat) -> bool
    decreases k,
{
    if k == 0 {
        from == to
    } else {
        exists|m: S| reach_n(voids, from, m, (k - 1) as nat) && #[trigger] voids.contains((m, to))
    }
}

/// The epsilon closure of `a`: everything reachable from `a` along void edges.
pub open spec fn eps_close<S>(voids: Set<(S, S)>, a: Set<S>) -> Set<S> {
    Set::new(|t: S| exists|s: S, k: nat| a.contains(s) && #[trigger] reach_n(voids, s, t, k))
}

/// The closure contains the set it closes.
pub proof fn lemma_close_extends<S>(voids: Set<(S, S)>, a: Set<S>)
    ensures
        a.subset_of(eps_close(voids, a)),
{
    assert forall|s: S| a.contains(s) implies eps_close(voids, a).contains(s) by {
        assert(reach_n(voids, s, s, 0));
    }
}

/// The closure is closed under void-edge steps.
pub proof fn lemma_close_closed<S>(voids: Set<(S, S)>, a: Set<S>)
    ensures
        void_closed(voids, eps_close(voids, a)),
{
    assert forall|s: S, t: S|
        eps_close(voids, a).contains(s) && #[trigger] voids.contains(
            (s, t),
        ) implies eps_close(voids, a).contains(t) by {
        let (s0, k) = choose|s0: S, k: nat| a.contains(s0) && #[trigger] reach_n(voids, s0, s, k);
        assert(reach_n(voids, s0, t, k + 1));
    }
}

proof fn lemma_reach_stays_in_closed<S>(voids: Set<(S, S)>, b: Set<S>, s: S, t: S, k: nat)
    requires
        b.contains(s),
        void_closed(voids, b),
        reach_n(voids, s, t, k),
    ensures
        b.contains(t),
    decreases k,
{
    if k != 0 {
        let m = choose|m: S|
            reach_n(voids, s, m, (k - 1) as nat) && #[trigger] voids.contains((m, t));
        lemma_reach_stays_in_closed(voids, b, s, m, (k - 1) as nat);
    }
}

/// The closure is the least set that contains `a` and is closed under void
/// edges.
pub proof fn lemma_close_minimal<S>(voids: Set<(S, S)>, a: Set<S>, b: Set<S>)
    requires
        a.subset_of(b),
        void_closed(voids, b),
    ensures
        eps_close(voids, a).subset_of(b),
{
    assert forall|t: S| eps_close(voids, a).contains(t) implies b.contains(t) by {
        let (s, k) = choose|s: S, k: nat| a.contains(s) && #[trigger] reach_n(voids, s, t, k);
        lemma_reach_stays_in_closed(voids, b, s, t, k);
    }
}

/// Closing a second time adds nothing.
pub proof fn lemma_close_idempotent<S>(voids: Set<(S, S)>, a: Set<S>)
    ensures
        eps_close(voids, eps_close(voids, a)) == eps_close(voids, a),
{
    lemma_close_extends(voids, eps_close(voids, a));
    lemma_close_closed(voids, a);
    lemma_close_minimal(voids, eps_close(voids, a), eps_close(voids, a));
    assert(eps_close(voids, eps_close(voids, a)) =~= eps_close(voids, a));
}

/// The empty set is already closed.
pub proof fn lemma_close_empty<S>(voids: Set<(S, S)>)
    ensures
        eps_close(voids, Set::<S>::empty()) == Set::<S>::empty(),
{
    lemma_close_minimal(voids, Set::<S>::empty(), Set::<S>::empty());
    assert(eps_close(voids, Set::<S>::empty()) =~= Set::<S>::empty());
}

impl<S, T> NfaShape<S, T> {
    /// The states reachable from `a` by consuming the single symbol `x`:
    /// plain edges labeled `x` together with every wildcard edge.
    pub open spec fn raw_move(self, a: Set<S>, x: T) -> Set<S> {
        Set::new(
            |t: S|
                (exists|s: S| a.contains(s) && #[trigger] self.plain.contains((s, x, t))) || (
                exists|s: S| a.contains(s) && #[trigger] self.wilds.contains((s, t))),
        )
    }

    /// One walker step: move on `x`, then close under void edges.
    pub open spec fn step(self, a: Set<S>, x: T) -> Set<S> {
        eps_close(self.voids, self.raw_move(a, x))
    }

    /// Whether the state set `a` touches the accept set.
    pub open spec fn accepting(self, a: Set<S>) -> bool {
        exists|s: S| a.contains(s) && self.accepts.contains(s)
    }

    /// The state set a fresh walker starts from.
    pub open spec fn initial(self) -> Set<S> {
        eps_close(self.voids, Set::empty().insert(self.start))
    }

    /// The state set reached from `a` after consuming all of `seq`.
    pub open spec fn run_from(self, a: Set<S>, seq: Seq<T>) -> Set<S>
        decreases seq.len(),
    {
        if seq.len() == 0 {
            a
        } else {
            self.run_from(self.step(a, seq[0]), seq.drop_first())
        }
    }

    /// Whole-sequence matching from `a`: consume everything, then test
    /// acceptance.  A dead walker can never accept, so no short-circuit
    /// clause is needed.
    pub open spec fn test_from(self, a: Set<S>, seq: Seq<T>) -> bool {
        self.accepting(self.run_from(a, seq))
    }

    /// Prefix search from `a`: acceptance observed at any prefix boundary.
    pub open spec fn search_from(self, a: Set<S>, seq: Seq<T>) -> bool
        decreases seq.len(),
    {
        self.accepting(a) || (seq.len() > 0 && self.search_from(
            self.step(a, seq[0]),
            seq.drop_first(),
        ))
    }
}

/// A dead state set stays dead: stepping the empty set yields the empty set.
pub proof fn lemma_step_of_empty<S, T>(n: NfaShape<S, T>, x: T)
    ensures
        n.step(Set::<S>::empty(), x) == Set::<S>::empty(),
{
    assert(n.raw_move(Set::<S>::empty(), x) =~= Set::<S>::empty());
    lemma_close_empty::<S>(n.voids);
}

/// A dead walker never accepts, however much input is still to come.
pub proof fn lemma_run_from_empty<S, T>(n: NfaShape<S, T>, seq: Seq<T>)
    ensures
        n.run_from(Set::<S>::empty(), seq) == Set::<S>::empty(),
        !n.test_from(Set::<S>::empty(), seq),
    decreases seq.len(),
{
    if seq.len() > 0 {
        lemma_step_of_empty(n, seq[0]);
        lemma_run_from_empty(n, seq.drop_first());
    }
}

/// A dead walker is never found accepting during a search either.
pub proof fn lemma_search_from_empty<S, T>(n: NfaShape<S, T>, seq: Seq<T>)
    ensures
        !n.search_from(Set::<S>::empty(), seq),
    decreases seq.len(),
{
    if seq.len() > 0 {
        lemma_step_of_empty(n, seq[0]);
        lemma_search_from_empty(n, seq.drop_first());
    }
}

/// Extends `states` in place to its epsilon closure under the void edges in
/// `voids`, keeping the representation duplicate-free.
pub(crate) fn close_over<S: Copy + Eq>(voids: &Vec<(S, S)>, states: &mut Vec<S>)
    requires
        obeys_concrete_eq::<S>(),
        old(states)@.no_duplicates(),
    ensures
        final(states)@.no_duplicates(),
        final(states)@.to_set() == eps_close(voids@.to_set(), old(states)@.to_set()),
{
    broadcast use vstd::set::group_set_axioms;
    broadcast use vstd::seq_lib::group_seq_lib_default;

    let ghost vset = voids@.to_set();
    let ghost a0 = old(states)@.to_set();
    let ghost n0 = states@.len();
    let ghost tgts = voids@.map_values(|e: (S, S)| e.1).to_set();
    proof {
        lemma_close_extends(vset, a0);
        lemma_close_closed(vset, a0);
        states@.unique_seq_to_set();
        vstd::set_lib::lemma_len_union(a0, tgts);
        voids@.map_values(|e: (S, S)| e.1).lemma_cardinality_of_set();
        assert(a0.len() <= n0);
    }
    let mut i: usize = 0;
    while i < states.len()
        invariant
            obeys_concrete_eq::<S>(),
            vset == voids@.to_set(),
            tgts == voids@.map_values(|e: (S, S)| e.1).to_set(),
            i <= states@.len(),
            states@.no_duplicates(),
            a0.subset_of(states@.to_set()),
            states@.to_set().subset_of(eps_close(vset, a0)),
            states@.to_set().subset_of(a0.union(tgts)),
            states@.len() <= n0 + voids@.len(),
            a0.len() <= n0,
            forall|p: int, q: int|
                0 <= p < i && 0 <= q < voids@.len() && voids@[q].0 == #[trigger] states@[p]
                    ==> states@.contains(#[trigger] voids@[q].1),
        decreases n0 + voids@.len() - states@.len(), states@.len() - i,
    {
        let s = states[i];
        let ghost len0 = states@.len();
        let mut j: usize = 0;
        while j < voids.len()
            invariant
                obeys_concrete_eq::<S>(),
                vset == voids@.to_set(),
                tgts == voids@.map_values(|e: (S, S)| e.1).to_set(),
                i < states@.len(),
                j <= voids@.len(),
                s == states@[i as int],
                states@.no_duplicates(),
                a0.subset_of(states@.to_set()),
                states@.to_set().subset_of(eps_close(vset, a0)),
                states@.to_set().subset_of(a0.union(tgts)),
                states@.len() <= n0 + voids@.len(),
                a0.len() <= n0,
                len0 <= states@.len(),
                forall|p: int, q: int|
                    0 <= p < i && 0 <= q < voids@.len() && voids@[q].0 == #[trigger] states@[p]
                        ==> states@.contains(#[trigger] voids@[q].1),
                forall|q: int|
                    0 <= q < j && voids@[q].0 == s ==> states@.contains(#[trigger] voids@[q].1),
            decreases voids@.len() - j,
        {
            let (f, t) = voids[j];
            proof {
                reveal(vstd::laws_eq::obeys_concrete_eq);
            }
            if f == s {
                proof {
                    assert(voids@[j as int] == (s, t));
                }
                let ghost pre = states@;
                proof {
                    assert(vset.contains((s, t))) by {
                        assert(voids@.contains((s, t)));
                    }
                    assert(eps_close(vset, a0).contains(t)) by {
                        lemma_close_closed(vset, a0);
                        assert(pre.contains(s));
                        assert(pre.to_set().contains(s));
                    }
                    assert(tgts.contains(t)) by {
                        assert(voids@.map_values(|e: (S, S)| e.1)[j as int] == t);
                        assert(voids@.map_values(|e: (S, S)| e.1).contains(t));
                    }
                }
                set_insert(states, t);
                proof {
                    assert(states@.to_set().contains(t));
                    assert(states@.contains(t));
                    assert forall|x: S| pre.contains(x) implies states@.contains(x) by {
                        let ix = choose|ix: int| 0 <= ix < pre.len() && pre[ix] == x;
                        assert(states@[ix] == x);
                    }
                    assert(states@.len() <= n0 + voids@.len()) by {
                        states@.unique_seq_to_set();
                        vstd::set_lib::lemma_len_subset(states@.to_set(), a0.union(tgts));
                        vstd::set_lib::lemma_len_union(a0, tgts);
                        assert(tgts.len() <= voids@.len()) by {
                            voids@.map_values(|e: (S, S)| e.1).lemma_cardinality_of_set();
                        }
                    }
                }
            } else {
                proof {
                    assert(voids@[j as int].0 != s);
                }
            }
            j += 1;
        }
        i += 1;
    }
    proof {
        assert(void_closed(vset, states@.to_set())) by {
            assert forall|x: S, y: S|
                states@.to_set().contains(x) && #[trigger] vset.contains(
                    (x, y),
                ) implies states@.to_set().contains(y) by {
                let p = choose|p: int| 0 <= p < states@.len() && states@[p] == x;
                let q = choose|q: int| 0 <= q < voids@.len() && voids@[q] == (x, y);
                assert(states@.contains(voids@[q].1));
            }
        }
        lemma_close_minimal(vset, a0, states@.to_set());
        assert(states@.to_set() =~= eps_close(vset, a0));
    }
}

/// Mutable staging structure that accumulates NFA edges and accept states
/// before being sealed into a blueprint.
#[derive(Debug, Clone, PartialEq, Eq)]
pub struct NFAutoBuilder<S, T> {
    plain: Vec<(S, T, S)>,
    voids: Vec<(S, S)>,
    wilds: Vec<(S, S)>,
    start_state: S,
    accept_state_set: Vec<S>,
}

/// Immutable NFA description; walkers borrow it and never change it.
#[derive(Debug, Clone, PartialEq, Eq)]
pub struct NFAutoBlueprint<S, T> {
    plain: Vec<(S, T, S)>,
    voids: Vec<(S, S)>,
    wilds: Vec<(S, S)>,
    start_state: S,
    accept_state_set: Vec<S>,
}

impl<S, T> View for NFAutoBuilder<S, T> {
    type V = NfaShape<S, T>;

    closed spec fn view(&self) -> NfaShape<S, T> {
        NfaShape {
            start: self.start_state,
            accepts: self.accept_state_set@.to_set(),
            plain: self.plain@.to_set(),
            voids: self.voids@.to_set(),
            wilds: self.wilds@.to_set(),
        }
    }
}

impl<S, T> View for NFAutoBlueprint<S, T> {
    type V = NfaShape<S, T>;

    closed spec fn view(&self) -> NfaShape<S, T> {
        NfaShape {
            start: self.start_state,
            accepts: self.accept_state_set@.to_set(),
            plain: self.plain@.to_set(),
            voids: self.voids@.to_set(),
            wilds: self.wilds@.to_set(),
        }
    }
}

impl<S: Copy + Eq, T: Copy + Eq> NFAutoBuilder<S, T> {
    /// Duplicate-free representation of every relation.
    pub closed spec fn wf(&self) -> bool {
        &&& self.plain@.no_duplicates()
        &&& self.voids@.no_duplicates()
        &&& self.wilds@.no_duplicates()
        &&& self.accept_state_set@.no_duplicates()
    }

    /// A fresh builder with the given start state and nothing else.
    pub fn start(start_state: S) -> (r: Self)
        ensures
            r.wf(),
            r@ == (NfaShape {
                start: start_state,
                accepts: Set::<S>::empty(),
                plain: Set::<(S, T, S)>::empty(),
                voids: Set::<(S, S)>::empty(),
                wilds: Set::<(S, S)>::empty(),
            }),
    {
        let r = Self {
            plain: Vec::new(),
            voids: Vec::new(),
            wilds: Vec::new(),
            start_state,
            accept_state_set: Vec::new(),
        };
        proof {
            assert(r.accept_state_set@.to_set() =~= Set::<S>::empty());
            assert(r.plain@.to_set() =~= Set::<(S, T, S)>::empty());
            assert(r.voids@.to_set() =~= Set::<(S, S)>::empty());
            assert(r.wilds@.to_set() =~= Set::<(S, S)>::empty());
        }
        r
    }

    /// Marks a state as accepting; registering it twice changes nothing.
    pub fn accept(self, state: S) -> (r: Self)
        requires
            obeys_concrete_eq::<S>(),
            self.wf(),
        ensures
            r.wf(),
            r@ == (NfaShape { accepts: self@.accepts.insert(state), ..self@ }),
    {
        let mut this = self;
        set_insert(&mut this.accept_state_set, state);
        this
    }

    /// Adds one plain edge `from --trans--> to`; duplicate registration of an
    /// identical edge changes nothing.
    pub fn connect(self, from: S, trans: T, to: S) -> (r: Self)
        requires
            obeys_concrete_eq::<S>(),
            obeys_concrete_eq::<T>(),
            self.wf(),
        ensures
            r.wf(),
            r@ == (NfaShape { plain: self@.plain.insert((from, trans, to)), ..self@ }),
    {
        proof {
            broadcast use vstd::laws_eq::group_laws_eq;

            assert(obeys_concrete_eq::<(S, T, S)>());
        }
        let mut this = self;
        set_insert(&mut this.plain, (from, trans, to));
        this
    }

    /// Adds one void (epsilon) edge `from --> to`.
    pub fn connect_void(self, from: S, to: S) -> (r: Self)
        requires
            obeys_concrete_eq::<S>(),
            self.wf(),
        ensures
            r.wf(),
            r@ == (NfaShape { voids: self@.voids.insert((from, to)), ..self@ }),
    {
        proof {
            broadcast use vstd::laws_eq::group_laws_eq;

            assert(obeys_concrete_eq::<(S, S)>());
        }
        let mut this = self;
        set_insert(&mut this.voids, (from, to));
        this
    }

    /// Adds one wildcard edge `from --*--> to`.
    pub fn connect_wildcard(self, from: S, to: S) -> (r: Self)
        requires
            obeys_concrete_eq::<S>(),
            self.wf(),
        ensures
            r.wf(),
            r@ == (NfaShape { wilds: self@.wilds.insert((from, to)), ..self@ }),
    {
        proof {
            broadcast use vstd::laws_eq::group_laws_eq;

            assert(obeys_concrete_eq::<(S, S)>());
        }
        let mut this = self;
        set_insert(&mut this.wilds, (from, to));
        this
    }

    /// Seals the builder into an immutable blueprint with the same content.
    pub fn finalize(self) -> (r: NFAutoBlueprint<S, T>)
        requires
            self.wf(),
        ensures
            r.wf(),
            r@ == self@,
    {
        NFAutoBlueprint {
            plain: self.plain,
            voids: self.voids,
            wilds: self.wilds,
            start_state: self.start_state,
            accept_state_set: self.accept_state_set,
        }
    }
}

impl<S: Copy + Eq, T: Copy + Eq> NFAutoBlueprint<S, T> {
    /// Duplicate-free representation of every relation.
    pub closed spec fn wf(&self) -> bool {
        &&& self.plain@.no_duplicates()
        &&& self.voids@.no_duplicates()
        &&& self.wilds@.no_duplicates()
        &&& self.accept_state_set@.no_duplicates()
    }

    /// The designated start state.
    pub fn start_state(&self) -> (r: &S)
        ensures
            *r == self@.start,
    {
        &self.start_state
    }

    /// The accept states, without duplicates.
    pub fn accept_state_set(&self) -> (r: &Vec<S>)
        ensures
            r@.to_set() == self@.accepts,
            self.wf() ==> r@.no_duplicates(),
    {
        &self.accept_state_set
    }

    /// The plain edges as stored, for the determinizer.
    pub(crate) fn plain_vec(&self) -> (r: &Vec<(S, T, S)>)
        ensures
            r@.to_set() == self@.plain,
            self.wf() ==> r@.no_duplicates(),
    {
        &self.plain
    }

    /// The void edges as stored, for the determinizer.
    pub(crate) fn voids_vec(&self) -> (r: &Vec<(S, S)>)
        ensures
            r@.to_set() == self@.voids,
            self.wf() ==> r@.no_duplicates(),
    {
        &self.voids
    }

    /// The wildcard edges as stored, for the determinizer.
    pub(crate) fn wilds_vec(&self) -> (r: &Vec<(S, S)>)
        ensures
            r@.to_set() == self@.wilds,
            self.wf() ==> r@.no_duplicates(),
    {
        &self.wilds
    }

    /// A fresh walker whose current state set is the epsilon closure of the
    /// start state.
    pub fn create(&self) -> (r: NFAuto<S, T>)
        requires
            obeys_concrete_eq::<S>(),
            self.wf(),
        ensures
            r.wf(),
            r.bp() == self,
            r@ == self@.initial(),
    {
        let mut seed: Vec<S> = Vec::new();
        seed.push(self.start_state);
        proof {
            assert(seed@.to_set() =~= Set::empty().insert(self@.start)) by {
                assert(seed@[0] == self@.start);
                assert forall|x: S| seed@.contains(x) implies x == self@.start by {
                    let ix = choose|ix: int| 0 <= ix < seed@.len() && seed@[ix] == x;
                }
            }
        }
        let mut auto = NFAuto { blueprint: self, current_state_set: seed };
        auto.extend_current_state_set();
        proof {
            lemma_close_idempotent(self@.voids, Set::empty().insert(self@.start));
        }
        auto
    }
}

/// The kind of one NFA connection, as reported by
/// [`NFAutoBlueprint::iterate_connections`].
pub enum ConnType<T> {
    Plain(T),
    Void,
    Wildcard,
}

impl<S: Copy + Eq, T: Copy + Eq> NFAutoBlueprint<S, T> {
    /// Every registered connection, each exactly once: plain edges carry
    /// their label, void and wildcard edges their kind.
    pub fn iterate_connections(&self) -> (r: Vec<(S, ConnType<T>, S)>)
        requires
            self.wf(),
        ensures
            r@.no_duplicates(),
            r@.len() == self@.plain.len() + self@.voids.len() + self@.wilds.len(),
            r@.to_set() == self@.plain.map(|e: (S, T, S)| (e.0, ConnType::Plain(e.1), e.2)).union(
                self@.voids.map(|e: (S, S)| (e.0, ConnType::<T>::Void, e.1)),
            ).union(self@.wilds.map(|e: (S, S)| (e.0, ConnType::<T>::Wildcard, e.1))),
    {
        broadcast use vstd::set::group_set_axioms;
        broadcast use vstd::seq_lib::group_seq_lib_default;

        let ghost np = self.plain@.len();
        let ghost nv = self.voids@.len();
        let mut r: Vec<(S, ConnType<T>, S)> = Vec::new();
        let mut i: usize = 0;
        while i < self.plain.len()
            invariant
                i <= self.plain@.len(),
                r@.len() == i,
                forall|k: int|
                    0 <= k < i ==> #[trigger] r@[k] == (
                        self.plain@[k].0,
                        ConnType::<T>::Plain(self.plain@[k].1),
                        self.plain@[k].2,
                    ),
            decreases self.plain@.len() - i,
        {
            let (f, l, t) = self.plain[i];
            r.push((f, ConnType::Plain(l), t));
            i += 1;
        }
        let mut i: usize = 0;
        while i < self.voids.len()
            invariant
                i <= self.voids@.len(),
                np == self.plain@.len(),
                r@.len() == np + i,
                forall|k: int|
                    0 <= k < np ==> #[trigger] r@[k] == (
                        self.plain@[k].0,
                        ConnType::<T>::Plain(self.plain@[k].1),
                        self.plain@[k].2,
                    ),
                forall|k: int|
                    np <= k < np + i ==> #[trigger] r@[k] == (
                        self.voids@[k - np].0,
                        ConnType::<T>::Void,
                        self.voids@[k - np].1,
                    ),
            decreases self.voids@.len() - i,
        {
            let (f, t) = self.voids[i];
            r.push((f, ConnType::Void, t));
            i += 1;
        }
        let mut i: usize = 0;
        while i < self.wilds.len()
            invariant
                i <= self.wilds@.len(),
                np == self.plain@.len(),
                nv == self.voids@.len(),
                r@.len() == np + nv + i,
                forall|k: int|
                    0 <= k < np ==> #[trigger] r@[k] == (
                        self.plain@[k].0,
                        ConnType::<T>::Plain(self.plain@[k].1),
                        self.plain@[k].2,
                    ),
                forall|k: int|
                    np <= k < np + nv ==> #[trigger] r@[k] == (
                        self.voids@[k - np].0,
                        ConnType::<T>::Void,
                        self.voids@[k - np].1,
                    ),
                forall|k: int|
                    np + nv <= k < np + nv + i ==> #[trigger] r@[k] == (
                        self.wilds@[k - np - nv].0,
                        ConnType::<T>::Wildcard,
                        self.wilds@[k - np - nv].1,
                    ),
            decreases self.wilds@.len() - i,
        {
            let (f, t) = self.wilds[i];
            r.push((f, ConnType::Wildcard, t));
            i += 1;
        }
        proof {
            self.lemma_iterate_shape(r@);
        }
        r
    }

    /// Relates the elementwise description of the connection list to the
    /// set-level statement of `iterate_connections`.
    proof fn lemma_iterate_shape(&self, r: Seq<(S, ConnType<T>, S)>)
        requires
            self.wf(),
            r.len() == self.plain@.len() + self.voids@.len() + self.wilds@.len(),
            forall|k: int|
                0 <= k < self.plain@.len() ==> #[trigger] r[k] == (
                    self.plain@[k].0,
                    ConnType::<T>::Plain(self.plain@[k].1),
                    self.plain@[k].2,
                ),
            forall|k: int|
                self.plain@.len() <= k < self.plain@.len() + self.voids@.len()
                    ==> #[trigger] r[k] == (
                    self.voids@[k - self.plain@.len()].0,
                    ConnType::<T>::Void,
                    self.voids@[k - self.plain@.len()].1,
                ),
            forall|k: int|
                self.plain@.len() + self.voids@.len() <= k < r.len() ==> #[trigger] r[k] == (
                    self.wilds@[k - self.plain@.len() - self.voids@.len()].0,
                    ConnType::<T>::Wildcard,
                    self.wilds@[k - self.plain@.len() - self.voids@.len()].1,
                ),
        ensures
            r.no_duplicates(),
            r.len() == self@.plain.len() + self@.voids.len() + self@.wilds.len(),
            r.to_set() == self@.plain.map(|e: (S, T, S)| (e.0, ConnType::Plain(e.1), e.2)).union(
                self@.voids.map(|e: (S, S)| (e.0, ConnType::<T>::Void, e.1)),
            ).union(self@.wilds.map(|e: (S, S)| (e.0, ConnType::<T>::Wildcard, e.1))),
    {
        broadcast use vstd::set::group_set_axioms;

        let np = self.plain@.len() as int;
        let nv = self.voids@.len() as int;
        let nw = self.wilds@.len() as int;
        assert forall|p: int, q: int| 0 <= p < q < r.len() implies r[p] != r[q] by {
            if q < np {
                assert(self.plain@[p] != self.plain@[q]);
            } else if np <= p && q < np + nv {
                assert(self.voids@[p - np] != self.voids@[q - np]);
            } else if np + nv <= p {
                assert(self.wilds@[p - np - nv] != self.wilds@[q - np - nv]);
            }
        }
        let target = self@.plain.map(|e: (S, T, S)| (e.0, ConnType::Plain(e.1), e.2)).union(
            self@.voids.map(|e: (S, S)| (e.0, ConnType::<T>::Void, e.1)),
        ).union(self@.wilds.map(|e: (S, S)| (e.0, ConnType::<T>::Wildcard, e.1)));
        assert forall|c: (S, ConnType<T>, S)| r.to_set().contains(c) implies target.contains(
            c,
        ) by {
            let k = choose|k: int| 0 <= k < r.len() && r[k] == c;
            if k < np {
                assert(self.plain@.contains(self.plain@[k]));
                assert(self@.plain.contains(self.plain@[k]));
            } else if k < np + nv {
                assert(self.voids@.contains(self.voids@[k - np]));
                assert(self@.voids.contains(self.voids@[k - np]));
            } else {
                assert(self.wilds@.contains(self.wilds@[k - np - nv]));
                assert(self@.wilds.contains(self.wilds@[k - np - nv]));
            }
        }
        assert forall|c: (S, ConnType<T>, S)| target.contains(c) implies r.to_set().contains(
            c,
        ) by {
            if self@.plain.map(|e: (S, T, S)| (e.0, ConnType::Plain(e.1), e.2)).contains(c) {
                let e = choose|e: (S, T, S)|
                    self@.plain.contains(e) && (e.0, ConnType::<T>::Plain(e.1), e.2) == c;
                assert(self.plain@.contains(e));
                let k = choose|k: int| 0 <= k < self.plain@.len() && self.plain@[k] == e;
                assert(r[k] == c);
                assert(r.contains(c));
            } else if self@.voids.map(|e: (S, S)| (e.0, ConnType::<T>::Void, e.1)).contains(c) {
                let e = choose|e: (S, S)|
                    self@.voids.contains(e) && (e.0, ConnType::<T>::Void, e.1) == c;
                assert(self.voids@.contains(e));
                let k = choose|k: int| 0 <= k < self.voids@.len() && self.voids@[k] == e;
                assert(r[np + k] == c);
                assert(r.contains(c));
            } else {
                let e = choose|e: (S, S)|
                    self@.wilds.contains(e) && (e.0, ConnType::<T>::Wildcard, e.1) == c;
                assert(self.wilds@.contains(e));
                let k = choose|k: int| 0 <= k < self.wilds@.len() && self.wilds@[k] == e;
                assert(r[np + nv + k] == c);
                assert(r.contains(c));
            }
        }
        assert(r.to_set() =~= target);
        assert(self@.plain.len() == np) by {
            self.plain@.unique_seq_to_set();
        }
        assert(self@.voids.len() == nv) by {
            self.voids@.unique_seq_to_set();
        }
        assert(self@.wilds.len() == nw) by {
            self.wilds@.unique_seq_to_set();
        }
    }
}

/// A live walker over an NFA blueprint.  It owns only its current state set;
/// the blueprint is shared and immutable.
#[derive(Debug, Clone, PartialEq, Eq)]
pub struct NFAuto<'b, S, T> {
    blueprint: &'b NFAutoBlueprint<S, T>,
    current_state_set: Vec<S>,
}

impl<'b, S: Copy + Eq, T: Copy + Eq> View for NFAuto<'b, S, T> {
    type V = Set<S>;

    closed spec fn view(&self) -> Set<S> {
        self.current_state_set@.to_set()
    }
}

impl<'b, S: Copy + Eq, T: Copy + Eq> NFAuto<'b, S, T> {
    /// The blueprint this walker runs over.
    pub closed spec fn bp(&self) -> &'b NFAutoBlueprint<S, T> {
        self.blueprint
    }

    /// Well-formed walker: sound blueprint, duplicate-free state set, and a
    /// state set that is already closed under void edges.
    pub closed spec fn wf(&self) -> bool {
        &&& self.blueprint.wf()
        &&& self.current_state_set@.no_duplicates()
        &&& self@ == eps_close(self.blueprint@.voids, self@)
    }

    /// Closes the current state set under void edges.
    fn extend_current_state_set(&mut self)
        requires
            obeys_concrete_eq::<S>(),
            old(self).current_state_set@.no_duplicates(),
        ensures
            final(self).blueprint == old(self).blueprint,
            final(self).current_state_set@.no_duplicates(),
            final(self)@ == eps_close(old(self).blueprint@.voids, old(self)@),
    {
        let bp = self.blueprint;
        close_over(&bp.voids, &mut self.current_state_set);
    }

    /// Whether some current state is an accept state.
    pub fn is_accepted(&self) -> (r: bool)
        requires
            obeys_concrete_eq::<S>(),
        ensures
            r == self.bp()@.accepting(self@),
    {
        let bp = self.blueprint;
        let mut i: usize = 0;
        while i < self.current_state_set.len()
            invariant
                obeys_concrete_eq::<S>(),
                i <= self.current_state_set@.len(),
                forall|k: int|
                    0 <= k < i ==> !bp.accept_state_set@.contains(
                        #[trigger] self.current_state_set@[k],
                    ),
                bp == self.blueprint,
            decreases self.current_state_set@.len() - i,
        {
            if seq_has(&bp.accept_state_set, self.current_state_set[i]) {
                proof {
                    assert(self@.contains(self.current_state_set@[i as int]));
                }
                return true;
            }
            i += 1;
        }
        proof {
            assert forall|s: S| !(self@.contains(s) && self.blueprint@.accepts.contains(s)) by {
                if self@.contains(s) {
                    let k = choose|k: int|
                        0 <= k < self.current_state_set@.len() && self.current_state_set@[k] == s;
                }
            }
        }
        false
    }

    /// Whether the walker is dead: its state set is empty.
    pub fn is_dead(&self) -> (r: bool)
        ensures
            r == (self@ == Set::<S>::empty()),
    {
        if self.current_state_set.len() == 0 {
            proof {
                assert(self@ =~= Set::<S>::empty());
            }
            true
        } else {
            proof {
                assert(self@.contains(self.current_state_set@[0]));
            }
            false
        }
    }

    /// The current state set, duplicate-free.
    pub fn current_state_set(&self) -> (r: &Vec<S>)
        ensures
            r@.to_set() == self@,
            self.wf() ==> r@.no_duplicates(),
    {
        &self.current_state_set
    }

    /// Consumes one symbol: the new state set is the closure of every plain
    /// destination under this label together with every wildcard destination.
    /// A dead walker stays dead.
    pub fn trigger(&mut self, trans: &T)
        requires
            obeys_concrete_eq::<S>(),
            obeys_concrete_eq::<T>(),
            old(self).wf(),
        ensures
            final(self).wf(),
            final(self).bp() == old(self).bp(),
            final(self)@ == old(self).bp()@.step(old(self)@, *trans),
            old(self)@ == Set::<S>::empty() ==> final(self)@ == Set::<S>::empty(),
    {
        let bp = self.blueprint;
        let ghost a = self@;
        let ghost x = *trans;
        let mut next: Vec<S> = Vec::new();
        proof {
            assert(next@.to_set() =~= Set::<S>::empty());
        }
        let mut i: usize = 0;
        while i < bp.plain.len()
            invariant
                obeys_concrete_eq::<S>(),
                obeys_concrete_eq::<T>(),
                i <= bp.plain@.len(),
                bp == self.blueprint,
                a == self@,
                x == *trans,
                next@.no_duplicates(),
                next@.to_set() == Set::new(
                    |t: S|
                        exists|k: int|
                            0 <= k < i && #[trigger] bp.plain@[k].1 == x && a.contains(
                                bp.plain@[k].0,
                            ) && bp.plain@[k].2 == t,
                ),
            decreases bp.plain@.len() - i,
        {
            let (f, l, t) = bp.plain[i];
            let ghost pre = next@.to_set();
            proof {
                broadcast use vstd::laws_eq::group_laws_eq;

                assert(obeys_concrete_eq::<(S, T, S)>());
                reveal(vstd::laws_eq::obeys_concrete_eq);
            }
            if l == *trans && seq_has(&self.current_state_set, f) {
                set_insert(&mut next, t);
                proof {
                    assert(a.contains(f)) by {
                        assert(self.current_state_set@.contains(f));
                    }
                    assert(next@.to_set() =~= Set::new(
                        |t2: S|
                            exists|k: int|
                                0 <= k < i + 1 && #[trigger] bp.plain@[k].1 == x && a.contains(
                                    bp.plain@[k].0,
                                ) && bp.plain@[k].2 == t2,
                    ));
                }
            } else {
                proof {
                    assert(next@.to_set() =~= Set::new(
                        |t2: S|
                            exists|k: int|
                                0 <= k < i + 1 && #[trigger] bp.plain@[k].1 == x && a.contains(
                                    bp.plain@[k].0,
                                ) && bp.plain@[k].2 == t2,
                    ));
                }
            }
            i += 1;
        }
        let ghost plain_part = next@.to_set();
        let mut j: usize = 0;
        while j < bp.wilds.len()
            invariant
                obeys_concrete_eq::<S>(),
                j <= bp.wilds@.len(),
                bp == self.blueprint,
                a == self@,
                next@.no_duplicates(),
                next@.to_set() == plain_part.union(
                    Set::new(
                        |t: S|
                            exists|k: int|
                                0 <= k < j && a.contains(#[trigger] bp.wilds@[k].0)
                                    && bp.wilds@[k].1 == t,
                    ),
                ),
            decreases bp.wilds@.len() - j,
        {
            let (f, t) = bp.wilds[j];
            if seq_has(&self.current_state_set, f) {
                set_insert(&mut next, t);
                proof {
                    assert(a.contains(f)) by {
                        assert(self.current_state_set@.contains(f));
                    }
                    assert(next@.to_set() =~= plain_part.union(
                        Set::new(
                            |t2: S|
                                exists|k: int|
                                    0 <= k < j + 1 && a.contains(#[trigger] bp.wilds@[k].0)
                                        && bp.wilds@[k].1 == t2,
                        ),
                    ));
                }
            } else {
                proof {
                    assert(next@.to_set() =~= plain_part.union(
                        Set::new(
                            |t2: S|
                                exists|k: int|
                                    0 <= k < j + 1 && a.contains(#[trigger] bp.wilds@[k].0)
                                        && bp.wilds@[k].1 == t2,
                        ),
                    ));
                }
            }
            j += 1;
        }
        proof {
            assert(next@.to_set() =~= bp@.raw_move(a, x)) by {
                assert forall|t: S| next@.to_set().contains(t) implies bp@.raw_move(a, x).contains(
                    t,
                ) by {
                    if plain_part.contains(t) {
                        let k = choose|k: int|
                            0 <= k < bp.plain@.len() && #[trigger] bp.plain@[k].1 == x
                                && a.contains(bp.plain@[k].0) && bp.plain@[k].2 == t;
                        assert(bp.plain@.contains((bp.plain@[k].0, x, t)));
                        assert(bp@.plain.contains((bp.plain@[k].0, x, t)));
                    } else {
                        let k = choose|k: int|
                            0 <= k < bp.wilds@.len() && a.contains(#[trigger] bp.wilds@[k].0)
                                && bp.wilds@[k].1 == t;
                        assert(bp.wilds@.contains((bp.wilds@[k].0, t)));
                        assert(bp@.wilds.contains((bp.wilds@[k].0, t)));
                    }
                }
                assert forall|t: S| bp@.raw_move(a, x).contains(t) implies next@.to_set().contains(
                    t,
                ) by {
                    if exists|s: S| a.contains(s) && #[trigger] bp@.plain.contains((s, x, t)) {
                        let s = choose|s: S| a.contains(s) && #[trigger] bp@.plain.contains(
                            (s, x, t),
                        );
                        let k = choose|k: int|
                            0 <= k < bp.plain@.len() && bp.plain@[k] == (s, x, t);
                        assert(bp.plain@[k].1 == x && a.contains(bp.plain@[k].0) && bp.plain@[k].2
                            == t);
                    } else {
                        let s = choose|s: S| a.contains(s) && #[trigger] bp@.wilds.contains(
                            (s, t),
                        );
                        let k = choose|k: int| 0 <= k < bp.wilds@.len() && bp.wilds@[k] == (s, t);
                        assert(a.contains(bp.wilds@[k].0) && bp.wilds@[k].1 == t);
                    }
                }
            }
        }
        self.current_state_set = next;
        self.extend_current_state_set();
        proof {
            lemma_close_idempotent(bp@.voids, bp@.raw_move(a, x));
            if a == Set::<S>::empty() {
                lemma_step_of_empty(bp@, x);
            }
        }
    }
}

impl<'b, S: Copy + Eq, T: Copy + Eq> crate::auto::Auto for NFAuto<'b, S, T> {
    type Trans = T;

    open spec fn inv(&self) -> bool {
        &&& obeys_concrete_eq::<S>()
        &&& obeys_concrete_eq::<T>()
        &&& self.wf()
    }

    open spec fn accepting_now(&self) -> bool {
        self.bp()@.accepting(self@)
    }

    /// An NFA walker may always attempt a symbol unless it is already dead.
    open spec fn steppable(&self, trans: T) -> bool {
        self@ != Set::<S>::empty()
    }

    open spec fn step_rel(&self, trans: T, next: Self) -> bool {
        next.bp() == self.bp() && next@ == self.bp()@.step(self@, trans)
    }

    open spec fn runs_to(&self, seq: Seq<T>) -> bool {
        self.bp()@.test_from(self@, seq)
    }

    open spec fn finds_prefix(&self, seq: Seq<T>) -> bool {
        self.bp()@.search_from(self@, seq)
    }

    fn trigger(&mut self, trans: &T) {
        NFAuto::trigger(self, trans);
    }

    fn test_trigger(&self, trans: &T) -> (r: bool) {
        !self.is_dead()
    }

    fn is_accepted(&self) -> (r: bool) {
        NFAuto::is_accepted(self)
    }

    fn test(&mut self, seq: &[T]) -> (r: bool) {
        let ghost a0 = self@;
        let ghost bp0 = self.bp();
        proof {
            assert(seq@.skip(0) =~= seq@);
        }
        let mut i: usize = 0;
        while i < seq.len()
            invariant
                self.inv(),
                i <= seq@.len(),
                self.bp() == bp0,
                a0 == old(self)@,
                bp0 == old(self).bp(),
                bp0@.test_from(a0, seq@) == bp0@.test_from(self@, seq@.skip(i as int)),
            decreases seq@.len() - i,
        {
            let ghost rem = seq@.skip(i as int);
            proof {
                assert(rem[0] == seq@[i as int]);
                assert(rem.drop_first() =~= seq@.skip(i + 1));
            }
            if self.is_dead() {
                proof {
                    lemma_run_from_empty(bp0@, rem);
                }
                return false;
            }
            NFAuto::trigger(self, &seq[i]);
            i += 1;
        }
        proof {
            assert(seq@.skip(i as int) =~= Seq::<T>::empty());
        }
        NFAuto::is_accepted(self)
    }

    fn search(&mut self, seq: &[T]) -> (r: bool) {
        let ghost a0 = self@;
        let ghost bp0 = self.bp();
        proof {
            assert(seq@.skip(0) =~= seq@);
        }
        let mut accepted = false;
        let mut i: usize = 0;
        while i < seq.len()
            invariant
                self.inv(),
                i <= seq@.len(),
                self.bp() == bp0,
                a0 == old(self)@,
                bp0 == old(self).bp(),
                bp0@.search_from(a0, seq@) == (accepted || bp0@.search_from(
                    self@,
                    seq@.skip(i as int),
                )),
            decreases seq@.len() - i,
        {
            let ghost rem = seq@.skip(i as int);
            proof {
                assert(rem[0] == seq@[i as int]);
                assert(rem.drop_first() =~= seq@.skip(i + 1));
            }
            if NFAuto::is_accepted(self) {
                accepted = true;
            }
            if self.is_dead() {
                proof {
                    lemma_search_from_empty(bp0@, rem);
                }
                return accepted;
            }
            NFAuto::trigger(self, &seq[i]);
            i += 1;
        }
        proof {
            assert(seq@.skip(i as int) =~= Seq::<T>::empty());
        }
        if accepted {
            true
        } else {
            NFAuto::is_accepted(self)
        }
    }
}

} // verus!
