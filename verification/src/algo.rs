//! Subset construction: determinizing an NFA blueprint into a DFA blueprint.
//!
//! The DFA's states are the distinct epsilon-closed subsets of NFA states
//! that the construction reaches, each canonicalized as a strictly sorted
//! sequence and named by the index under which it was first seen.

use vstd::prelude::*;

verus! {

use vstd::laws_eq::obeys_concrete_eq;
use crate::nfa::{NFAutoBlueprint, eps_close};
use crate::dfa::DFAutoBlueprint;
use crate::support::vec_copy;

/// Closes `state_set` under the void edges of `nfa`, keeping the
/// representation duplicate-free.
pub(crate) fn extend_state_set<S: Copy + Eq, T: Copy + Eq>(
    nfa: &NFAutoBlueprint<S, T>,
    state_set: &Vec<S>,
) -> (r: Vec<S>)
    requires
        obeys_concrete_eq::<S>(),
        state_set@.no_duplicates(),
    ensures
        r@.no_duplicates(),
        r@.to_set() == eps_close(nfa@.voids, state_set@.to_set()),
{
    let mut s = vec_copy(state_set);
    crate::nfa::close_over(nfa.voids_vec(), &mut s);
    s
}

/// Strictly ascending: the canonical form of a duplicate-free state set.
spec fn sorted_strict(s: Seq<u64>) -> bool {
    forall|i: int, j: int| 0 <= i < j < s.len() ==> s[i] < s[j]
}

/// Two canonical sequences holding the same set are the same sequence.
proof fn lemma_canonical_unique(a: Seq<u64>, b: Seq<u64>)
    requires
        sorted_strict(a),
        sorted_strict(b),
        a.to_set() == b.to_set(),
    ensures
        a == b,
    decreases a.len(),
{
    broadcast use vstd::set::group_set_axioms;

    if a.len() == 0 {
        if b.len() > 0 {
            assert(b.to_set().contains(b[0]));
            assert(a.contains(b[0]));
        }
        assert(a =~= b);
    } else {
        assert(a.to_set().contains(a.last()));
        assert(b.to_set().contains(a.last()));
        assert(b.len() > 0);
        let ia = choose|i: int| 0 <= i < b.len() && b[i] == a.last();
        assert(a.last() <= b.last());
        assert(b.to_set().contains(b.last()));
        assert(a.to_set().contains(b.last()));
        assert(a.contains(b.last()));
        let ib = choose|i: int| 0 <= i < a.len() && a[i] == b.last();
        assert(b.last() <= a.last());
        assert(a.last() == b.last());
        assert(a.drop_last().to_set() =~= b.drop_last().to_set()) by {
            assert forall|x: u64| a.drop_last().to_set().contains(x)
                implies b.drop_last().to_set().contains(x) by {
                let i = choose|i: int| 0 <= i < a.drop_last().len() && a.drop_last()[i] == x;
                assert(a[i] == x && i < a.len() - 1);
                assert(x < a.last());
                assert(b.to_set().contains(x));
                let j = choose|j: int| 0 <= j < b.len() && b[j] == x;
                assert(j < b.len() - 1) by {
                    if j == b.len() - 1 {
                        assert(x == b.last());
                    }
                }
                assert(b.drop_last()[j] == x);
            }
            assert forall|x: u64| b.drop_last().to_set().contains(x)
                implies a.drop_last().to_set().contains(x) by {
                let i = choose|i: int| 0 <= i < b.drop_last().len() && b.drop_last()[i] == x;
                assert(b[i] == x && i < b.len() - 1);
                assert(x < b.last());
                assert(a.to_set().contains(x));
                let j = choose|j: int| 0 <= j < a.len() && a[j] == x;
                assert(j < a.len() - 1) by {
                    if j == a.len() - 1 {
                        assert(x == a.last());
                    }
                }
                assert(a.drop_last()[j] == x);
            }
        }
        assert(sorted_strict(a.drop_last()));
        assert(sorted_strict(b.drop_last()));
        lemma_canonical_unique(a.drop_last(), b.drop_last());
        assert(a =~= b) by {
            assert(a.len() == b.len());
            assert(forall|i: int| 0 <= i < a.len() - 1 ==> a[i] == a.drop_last()[i]
                && b[i] == b.drop_last()[i]);
        }
    }
}

/// Sorts a duplicate-free vector of states into its canonical form.
fn canonicalize(v: &Vec<u64>) -> (r: Vec<u64>)
    requires
        v@.no_duplicates(),
    ensures
        sorted_strict(r@),
        r@.no_duplicates(),
        r@.to_set() == v@.to_set(),
{
    broadcast use vstd::set::group_set_axioms;

    let mut r: Vec<u64> = Vec::new();
    let mut i: usize = 0;
    proof {
        assert(r@.to_set() =~= v@.take(0).to_set());
    }
    while i < v.len()
        invariant
            i <= v@.len(),
            sorted_strict(r@),
            r@.no_duplicates(),
            r@.to_set() == v@.take(i as int).to_set(),
        decreases v@.len() - i,
    {
        let x = v[i];
        let mut p: usize = 0;
        while p < r.len() && r[p] < x
            invariant
                p <= r@.len(),
                forall|k: int| 0 <= k < p ==> r@[k] < x,
                sorted_strict(r@),
            decreases r@.len() - p,
        {
            p += 1;
        }
        let ghost pre = r@;
        if p < r.len() && r[p] == x {
            proof {
                assert(r@.to_set().contains(x));
                assert(v@.take(i + 1).to_set() =~= v@.take(i as int).to_set().insert(x)) by {
                    crate::support::lemma_take_one_more(v@, i as int);
                }
                assert(r@.to_set() =~= v@.take(i + 1).to_set());
            }
        } else {
            r.insert(p, x);
            proof {
                assert(r@ == pre.insert(p as int, x));
                assert(sorted_strict(r@)) by {
                    assert forall|a: int, b: int| 0 <= a < b < r@.len() implies r@[a] < r@[b] by {
                        assert(forall|k: int| 0 <= k < p ==> r@[k] == pre[k]);
                        assert(r@[p as int] == x);
                        assert(forall|k: int| p < k < r@.len() ==> r@[k] == pre[k - 1]);
                        assert(forall|k: int| p <= k < pre.len() ==> pre[k] >= x) by {
                            assert forall|k: int| p <= k < pre.len() implies pre[k] >= x by {
                                if pre[k] < x {
                                    assert((p as int) <= k);
                                    assert(pre[p as int] <= pre[k]) by {
                                        if (p as int) < k {
                                            assert(pre[p as int] < pre[k]);
                                        }
                                    }
                                }
                            }
                        }
                        assert(forall|k: int| p <= k < pre.len() ==> pre[k] != x);
                    }
                }
                assert(r@.no_duplicates()) by {
                    assert forall|a: int, b: int| 0 <= a < b < r@.len() implies r@[a] != r@[b] by {
                        assert(r@[a] < r@[b]);
                    }
                }
                assert(r@.to_set() =~= pre.to_set().insert(x)) by {
                    assert forall|y: u64| r@.to_set().contains(y) implies pre.to_set().insert(
                        x,
                    ).contains(y) by {
                        let k = choose|k: int| 0 <= k < r@.len() && r@[k] == y;
                        if k < p {
                            assert(pre[k] == y);
                        } else if k > p {
                            assert(pre[k - 1] == y);
                        }
                    }
                    assert forall|y: u64| pre.to_set().insert(x).contains(y)
                        implies r@.to_set().contains(y) by {
                        if y == x {
                            assert(r@[p as int] == x);
                        } else {
                            let k = choose|k: int| 0 <= k < pre.len() && pre[k] == y;
                            if k < p {
                                assert(r@[k] == y);
                            } else {
                                assert(r@[k + 1] == y);
                            }
                        }
                    }
                }
                assert(v@.take(i + 1).to_set() =~= v@.take(i as int).to_set().insert(x)) by {
                    crate::support::lemma_take_one_more(v@, i as int);
                }
                assert(r@.to_set() =~= v@.take(i + 1).to_set());
            }
        }
        i += 1;
    }
    proof {
        assert(v@.take(v@.len() as int) =~= v@);
    }
    r
}

/// Whether two state vectors hold the same sequence.
fn vec_u64_eq(a: &Vec<u64>, b: &Vec<u64>) -> (r: bool)
    ensures
        r == (a@ == b@),
{
    if a.len() != b.len() {
        proof {
            assert(a@ != b@);
        }
        return false;
    }
    let mut i: usize = 0;
    while i < a.len()
        invariant
            a@.len() == b@.len(),
            i <= a@.len(),
            forall|k: int| 0 <= k < i ==> a@[k] == b@[k],
        decreases a@.len() - i,
    {
        if a[i] != b[i] {
            return false;
        }
        i += 1;
    }
    proof {
        assert(a@ =~= b@);
    }
    true
}

/// Two to the given power; bounds the number of distinct state subsets.
spec fn two_to(n: nat) -> nat
    decreases n,
{
    if n == 0 {
        1
    } else {
        2 * two_to((n - 1) as nat)
    }
}

/// All finite subsets of `u`.
spec fn subsets_of(u: Set<u64>) -> Set<Set<u64>> {
    Set::new(|s: Set<u64>| s.finite() && s.subset_of(u))
}

/// A finite set of size `n` has at most `two_to(n)` subsets.
proof fn lemma_subsets_of_len(u: Set<u64>)
    requires
        u.finite(),
    ensures
        subsets_of(u).finite(),
        subsets_of(u).len() <= two_to(u.len()),
    decreases u.len(),
{
    broadcast use vstd::set::group_set_axioms;

    if u.len() == 0 {
        assert(u =~= Set::<u64>::empty());
        assert(subsets_of(u) =~= Set::<Set<u64>>::empty().insert(Set::<u64>::empty())) by {
            assert forall|s: Set<u64>| subsets_of(u).contains(s) implies s =~= Set::<u64>::empty()
                by {
                vstd::set_lib::lemma_len_subset(s, u);
                s.lemma_len0_is_empty();
            }
        }
    } else {
        let x = u.choose();
        assert(u.contains(x));
        let u2 = u.remove(x);
        lemma_subsets_of_len(u2);
        let with_x = subsets_of(u2).map(|s: Set<u64>| s.insert(x));
        assert(subsets_of(u) =~= subsets_of(u2).union(with_x)) by {
            assert forall|s: Set<u64>| subsets_of(u).contains(s) implies subsets_of(u2).union(
                with_x,
            ).contains(s) by {
                if s.contains(x) {
                    assert(s.remove(x).finite() && s.remove(x).subset_of(u2));
                    assert(subsets_of(u2).contains(s.remove(x)));
                    assert(s.remove(x).insert(x) =~= s);
                    assert(with_x.contains(s));
                } else {
                    assert(s.subset_of(u2));
                }
            }
            assert forall|s: Set<u64>| subsets_of(u2).union(with_x).contains(s)
                implies subsets_of(u).contains(s) by {
                if subsets_of(u2).contains(s) {
                    assert(s.subset_of(u));
                } else {
                    let s2 = choose|s2: Set<u64>|
                        subsets_of(u2).contains(s2) && s2.insert(x) == s;
                    assert(s2.insert(x).finite() && s2.insert(x).subset_of(u));
                }
            }
        }
        vstd::set_lib::lemma_map_size_bound(
            subsets_of(u2),
            with_x,
            |s: Set<u64>| s.insert(x),
        );
        vstd::set_lib::lemma_len_union(subsets_of(u2), with_x);
        assert(two_to(u.len()) == 2 * two_to(u2.len()));
    }
}

/// A set that is not the empty set holds a witness.
proof fn lemma_nonempty_witness<A>(s: Set<A>)
    requires
        s != Set::<A>::empty(),
    ensures
        exists|t: A| s.contains(t),
{
    broadcast use vstd::set::group_set_axioms;

    if !(exists|t: A| s.contains(t)) {
        assert(s =~= Set::<A>::empty());
    }
}

/// The plain-edge destinations that symbol `x` reaches from `a`.
pub open spec fn pdests<T>(n: crate::nfa::NfaShape<u64, T>, a: Set<u64>, x: T) -> Set<u64> {
    Set::new(|t: u64| exists|s: u64| a.contains(s) && #[trigger] n.plain.contains((s, x, t)))
}

/// The wildcard-edge destinations reachable from `a`.
pub open spec fn wdests<T>(n: crate::nfa::NfaShape<u64, T>, a: Set<u64>) -> Set<u64> {
    Set::new(|t: u64| exists|s: u64| a.contains(s) && #[trigger] n.wilds.contains((s, t)))
}

/// The closed destination set that a DFA fallback edge carries.
pub open spec fn wmove<T>(n: crate::nfa::NfaShape<u64, T>, a: Set<u64>) -> Set<u64> {
    eps_close(n.voids, wdests(n, a))
}

/// One NFA step equals the closure of the plain and wildcard destinations
/// together; this is the destination every labeled DFA edge must carry.
pub proof fn lemma_step_is_move_union<T>(n: crate::nfa::NfaShape<u64, T>, a: Set<u64>, x: T)
    ensures
        n.step(a, x) == eps_close(n.voids, pdests(n, a, x).union(wdests(n, a))),
{
    broadcast use vstd::set::group_set_axioms;

    assert(n.raw_move(a, x) =~= pdests(n, a, x).union(wdests(n, a)));
}

/// The language of the determinized automaton, expressed on state subsets: a
/// labeled edge exists for every label with a nonempty plain move, a
/// fallback when the wildcard move is nonempty, and either edge carries the
/// full closed destination set of the corresponding NFA step.
pub open spec fn dsub_test<T>(n: crate::nfa::NfaShape<u64, T>, a: Set<u64>, seq: Seq<T>) -> bool
    decreases seq.len(),
{
    if seq.len() == 0 {
        n.accepting(a)
    } else if pdests(n, a, seq[0]) != Set::<u64>::empty() || wdests(n, a) != Set::<u64>::empty() {
        dsub_test(n, n.step(a, seq[0]), seq.drop_first())
    } else {
        false
    }
}

/// The canonical state sets named by the determinizer's state identifiers.
spec fn rep_sets(reps: Seq<Vec<u64>>) -> Seq<Set<u64>> {
    reps.map_values(|v: Vec<u64>| v@.to_set())
}

/// The DFA `d` implements the subset construction over `n` under the naming
/// `m`: identifier `s` stands for the state set `m[s]`, and per state the
/// accept mark, the labeled edges, and the fallback edge are exactly what
/// the construction prescribes.
pub open spec fn dfa_simulates<T>(
    d: crate::dfa::DfaShape<u64, T>,
    n: crate::nfa::NfaShape<u64, T>,
    m: Seq<Set<u64>>,
) -> bool {
    &&& forall|s: u64| (s as int) < m.len() ==> (d.accepts.contains(s) <==> n.accepting(
        #[trigger] m[s as int],
    ))
    &&& forall|s: u64, x: T| (s as int) < m.len() ==> (#[trigger] d.plain.dom().contains((s, x))
        <==> pdests(n, m[s as int], x) != Set::<u64>::empty())
    &&& forall|s: u64, x: T| (s as int) < m.len() && #[trigger] d.plain.dom().contains((s, x))
        ==> (d.plain[(s, x)] as int) < m.len() && m[d.plain[(s, x)] as int] == n.step(
        m[s as int],
        x,
    )
    &&& forall|s: u64| (s as int) < m.len() ==> (#[trigger] d.fallback.dom().contains(s) <==> wdests(
        n,
        m[s as int],
    ) != Set::<u64>::empty())
    &&& forall|s: u64| (s as int) < m.len() && #[trigger] d.fallback.dom().contains(s) ==> (
    d.fallback[s] as int) < m.len() && m[d.fallback[s] as int] == wmove(n, m[s as int])
}

/// Under the simulation, the DFA run from an identifier decides exactly what
/// the subset semantics decides from the named set.
proof fn lemma_sim_test<T>(
    d: crate::dfa::DfaShape<u64, T>,
    n: crate::nfa::NfaShape<u64, T>,
    m: Seq<Set<u64>>,
    s: u64,
    seq: Seq<T>,
)
    requires
        dfa_simulates(d, n, m),
        (s as int) < m.len(),
    ensures
        d.test_from(s, seq) == dsub_test(n, m[s as int], seq),
    decreases seq.len(),
{
    broadcast use vstd::set::group_set_axioms;

    if seq.len() > 0 {
        let x = seq[0];
        let a = m[s as int];
        if pdests(n, a, x) != Set::<u64>::empty() {
            assert(d.plain.dom().contains((s, x)));
            let s2 = d.plain[(s, x)];
            lemma_sim_test(d, n, m, s2, seq.drop_first());
        } else if wdests(n, a) != Set::<u64>::empty() {
            assert(!d.plain.dom().contains((s, x)));
            assert(d.fallback.dom().contains(s));
            let s2 = d.fallback[s];
            assert(n.step(a, x) == wmove(n, a)) by {
                assert forall|t: u64| n.raw_move(a, x).contains(t) implies wdests(n, a).contains(
                    t,
                ) by {
                    if exists|s2: u64| a.contains(s2) && #[trigger] n.plain.contains((s2, x, t)) {
                        assert(pdests(n, a, x).contains(t));
                    }
                }
                assert forall|t: u64| wdests(n, a).contains(t) implies n.raw_move(a, x).contains(
                    t,
                ) by {
                    let s2 = choose|s2: u64| a.contains(s2) && #[trigger] n.wilds.contains(
                        (s2, t),
                    );
                }
                assert(n.raw_move(a, x) =~= wdests(n, a));
            }
            lemma_sim_test(d, n, m, s2, seq.drop_first());
        } else {
            assert(!d.plain.dom().contains((s, x)));
            assert(!d.fallback.dom().contains(s));
        }
    }
}

/// The subset semantics and the NFA semantics decide the same sequences,
/// from every state set: when either move fires the reached sets coincide,
/// and when neither fires the NFA is dead and can never accept.
pub proof fn lemma_dsub_matches_nfa<T>(
    n: crate::nfa::NfaShape<u64, T>,
    a: Set<u64>,
    seq: Seq<T>,
)
    ensures
        dsub_test(n, a, seq) == n.test_from(a, seq),
    decreases seq.len(),
{
    broadcast use vstd::set::group_set_axioms;

    if seq.len() > 0 {
        let x = seq[0];
        if pdests(n, a, x) != Set::<u64>::empty() || wdests(n, a) != Set::<u64>::empty() {
            lemma_dsub_matches_nfa(n, n.step(a, x), seq.drop_first());
        } else {
            assert(n.raw_move(a, x) =~= Set::<u64>::empty()) by {
                assert(n.raw_move(a, x) =~= pdests(n, a, x).union(wdests(n, a)));
            }
            crate::nfa::lemma_close_empty::<u64>(n.voids);
            assert(n.step(a, x) == Set::<u64>::empty());
            crate::nfa::lemma_run_from_empty(n, seq.drop_first());
            assert(!n.test_from(a, seq));
        }
    }
}

/// Whether some edge among the first `upto` plain edges carries label `x`
/// from a state in `q`.
spec fn label_seen<T>(pl: Seq<(u64, T, u64)>, q: Set<u64>, upto: int, x: T) -> bool {
    exists|e: int| 0 <= e < upto && #[trigger] pl[e].1 == x && q.contains(pl[e].0)
}

proof fn lemma_label_seen_pdests<T>(
    n: crate::nfa::NfaShape<u64, T>,
    pl: Seq<(u64, T, u64)>,
    q: Set<u64>,
    x: T,
)
    requires
        n.plain == pl.to_set(),
    ensures
        label_seen(pl, q, pl.len() as int, x) <==> pdests(n, q, x) != Set::<u64>::empty(),
{
    broadcast use vstd::set::group_set_axioms;

    if label_seen(pl, q, pl.len() as int, x) {
        let e = choose|e: int| 0 <= e < pl.len() && #[trigger] pl[e].1 == x && q.contains(pl[e].0);
        assert(pl.contains(pl[e]));
        assert(n.plain.contains((pl[e].0, x, pl[e].2)));
        assert(pdests(n, q, x).contains(pl[e].2));
    }
    if pdests(n, q, x) != Set::<u64>::empty() {
        lemma_nonempty_witness(pdests(n, q, x));
        let t = choose|t: u64| pdests(n, q, x).contains(t);
        let s = choose|s: u64| q.contains(s) && #[trigger] n.plain.contains((s, x, t));
        assert(pl.contains((s, x, t)));
        let e = choose|e: int| 0 <= e < pl.len() && pl[e] == (s, x, t);
        assert(pl[e].1 == x && q.contains(pl[e].0));
    }
}

/// Every state a move can reach: the start state and all edge targets.
spec fn universe<T>(n: crate::nfa::NfaShape<u64, T>) -> Set<u64> {
    Set::<u64>::empty().insert(n.start).union(n.plain.map(|e: (u64, T, u64)| e.2)).union(
        n.wilds.map(|e: (u64, u64)| e.1),
    ).union(n.voids.map(|e: (u64, u64)| e.1))
}

proof fn lemma_universe<T>(n: crate::nfa::NfaShape<u64, T>)
    requires
        n.plain.finite(),
        n.wilds.finite(),
        n.voids.finite(),
    ensures
        universe(n).finite(),
        n.initial().subset_of(universe(n)),
        forall|a: Set<u64>, x: T| #[trigger] n.step(a, x).subset_of(universe(n)),
        forall|a: Set<u64>| #[trigger] wmove(n, a).subset_of(universe(n)),
{
    broadcast use vstd::set::group_set_axioms;

    let uni = universe(n);
    assert(uni.finite()) by {
        n.plain.lemma_map_finite(|e: (u64, T, u64)| e.2);
        n.wilds.lemma_map_finite(|e: (u64, u64)| e.1);
        n.voids.lemma_map_finite(|e: (u64, u64)| e.1);
    }
    assert(crate::nfa::void_closed(n.voids, uni)) by {
        assert forall|s: u64, t: u64|
            uni.contains(s) && #[trigger] n.voids.contains((s, t)) implies uni.contains(t) by {
            assert(n.voids.map(|e: (u64, u64)| e.1).contains(t));
        }
    }
    assert(n.initial().subset_of(uni)) by {
        assert(Set::<u64>::empty().insert(n.start).subset_of(uni));
        crate::nfa::lemma_close_minimal(n.voids, Set::<u64>::empty().insert(n.start), uni);
    }
    assert forall|a: Set<u64>, x: T| #[trigger] n.step(a, x).subset_of(uni) by {
        assert(n.raw_move(a, x).subset_of(uni)) by {
            assert forall|t: u64| n.raw_move(a, x).contains(t) implies uni.contains(t) by {
                if exists|s: u64| a.contains(s) && #[trigger] n.plain.contains((s, x, t)) {
                    let s = choose|s: u64| a.contains(s) && #[trigger] n.plain.contains((s, x, t));
                    assert(n.plain.map(|e: (u64, T, u64)| e.2).contains(t));
                } else {
                    let s = choose|s: u64| a.contains(s) && #[trigger] n.wilds.contains((s, t));
                    assert(n.wilds.map(|e: (u64, u64)| e.1).contains(t));
                }
            }
        }
        crate::nfa::lemma_close_minimal(n.voids, n.raw_move(a, x), uni);
    }
    assert forall|a: Set<u64>| #[trigger] wmove(n, a).subset_of(uni) by {
        assert(wdests(n, a).subset_of(uni)) by {
            assert forall|t: u64| wdests(n, a).contains(t) implies uni.contains(t) by {
                let s = choose|s: u64| a.contains(s) && #[trigger] n.wilds.contains((s, t));
                assert(n.wilds.map(|e: (u64, u64)| e.1).contains(t));
            }
        }
        crate::nfa::lemma_close_minimal(n.voids, wdests(n, a), uni);
    }
}

/// Distinct canonical subsets of a finite universe are no more numerous than
/// the universe's subsets.
proof fn lemma_reps_bound(reps: Seq<Vec<u64>>, uni: Set<u64>)
    requires
        uni.finite(),
        forall|i: int| 0 <= i < reps.len() ==> sorted_strict(#[trigger] reps[i]@),
        forall|i: int| 0 <= i < reps.len() ==> (#[trigger] reps[i]@).to_set().subset_of(uni),
        forall|i: int, j: int| 0 <= i < j < reps.len() ==> reps[i]@ != reps[j]@,
    ensures
        reps.len() <= two_to(uni.len()),
{
    broadcast use vstd::set::group_set_axioms;
    broadcast use vstd::seq_lib::group_seq_lib_default;

    let m = rep_sets(reps);
    assert(m.no_duplicates()) by {
        assert forall|i: int, j: int| 0 <= i < j < m.len() implies m[i] != m[j] by {
            if m[i] == m[j] {
                lemma_canonical_unique(reps[i]@, reps[j]@);
            }
        }
    }
    m.unique_seq_to_set();
    assert(m.to_set().subset_of(subsets_of(uni))) by {
        assert forall|a: Set<u64>| m.to_set().contains(a) implies subsets_of(uni).contains(a) by {
            let i = choose|i: int| 0 <= i < m.len() && m[i] == a;
            assert(a == reps[i]@.to_set());
        }
    }
    lemma_subsets_of_len(uni);
    vstd::set_lib::lemma_len_subset(m.to_set(), subsets_of(uni));
}

/// Whether some state in `q` is an accept state of `nfa`.
fn set_accepting<T: Copy + Eq>(nfa: &NFAutoBlueprint<u64, T>, q: &Vec<u64>) -> (r: bool)
    requires
        obeys_concrete_eq::<u64>(),
    ensures
        r == nfa@.accepting(q@.to_set()),
{
    let acc = nfa.accept_state_set();
    let mut i: usize = 0;
    while i < q.len()
        invariant
            obeys_concrete_eq::<u64>(),
            i <= q@.len(),
            acc@.to_set() == nfa@.accepts,
            forall|k: int| 0 <= k < i ==> !acc@.contains(#[trigger] q@[k]),
        decreases q@.len() - i,
    {
        if crate::support::seq_has(acc, q[i]) {
            proof {
                assert(q@.to_set().contains(q@[i as int]));
                assert(nfa@.accepts.contains(q@[i as int]));
            }
            return true;
        }
        i += 1;
    }
    proof {
        assert forall|s: u64| !(q@.to_set().contains(s) && nfa@.accepts.contains(s)) by {
            if q@.to_set().contains(s) {
                let k = choose|k: int| 0 <= k < q@.len() && q@[k] == s;
            }
        }
    }
    false
}

/// The plain-edge destinations of label `x` from the states in `q`.
fn collect_pdests<T: Copy + Eq>(nfa: &NFAutoBlueprint<u64, T>, q: &Vec<u64>, x: T) -> (r: Vec<
    u64,
>)
    requires
        obeys_concrete_eq::<u64>(),
        obeys_concrete_eq::<T>(),
    ensures
        r@.no_duplicates(),
        r@.to_set() == pdests(nfa@, q@.to_set(), x),
{
    broadcast use vstd::set::group_set_axioms;

    let pl = nfa.plain_vec();
    let ghost qset = q@.to_set();
    let mut r: Vec<u64> = Vec::new();
    proof {
        assert(r@.to_set() =~= Set::<u64>::empty());
    }
    let mut i: usize = 0;
    while i < pl.len()
        invariant
            obeys_concrete_eq::<u64>(),
            obeys_concrete_eq::<T>(),
            i <= pl@.len(),
            qset == q@.to_set(),
            pl@.to_set() == nfa@.plain,
            r@.no_duplicates(),
            r@.to_set() == Set::new(
                |t: u64|
                    exists|k: int|
                        0 <= k < i && #[trigger] pl@[k].1 == x && qset.contains(pl@[k].0)
                            && pl@[k].2 == t,
            ),
        decreases pl@.len() - i,
    {
        proof {
            reveal(vstd::laws_eq::obeys_concrete_eq);
        }
        let (f, l, t) = pl[i];
        let ghost pre = r@.to_set();
        if l == x && crate::support::seq_has(q, f) {
            crate::support::set_insert(&mut r, t);
            proof {
                assert(qset.contains(f));
                assert(r@.to_set() =~= Set::new(
                    |t2: u64|
                        exists|k: int|
                            0 <= k < i + 1 && #[trigger] pl@[k].1 == x && qset.contains(pl@[k].0)
                                && pl@[k].2 == t2,
                ));
            }
        } else {
            proof {
                assert(r@.to_set() =~= Set::new(
                    |t2: u64|
                        exists|k: int|
                            0 <= k < i + 1 && #[trigger] pl@[k].1 == x && qset.contains(pl@[k].0)
                                && pl@[k].2 == t2,
                ));
            }
        }
        i += 1;
    }
    proof {
        assert(r@.to_set() =~= pdests(nfa@, qset, x)) by {
            assert forall|t: u64| r@.to_set().contains(t) implies pdests(nfa@, qset, x).contains(
                t,
            ) by {
                let k = choose|k: int|
                    0 <= k < pl@.len() && #[trigger] pl@[k].1 == x && qset.contains(pl@[k].0)
                        && pl@[k].2 == t;
                assert(pl@.contains((pl@[k].0, x, t)));
                assert(nfa@.plain.contains((pl@[k].0, x, t)));
            }
            assert forall|t: u64| pdests(nfa@, qset, x).contains(t) implies r@.to_set().contains(
                t,
            ) by {
                let s = choose|s: u64| qset.contains(s) && #[trigger] nfa@.plain.contains(
                    (s, x, t),
                );
                assert(pl@.contains((s, x, t)));
                let k = choose|k: int| 0 <= k < pl@.len() && pl@[k] == (s, x, t);
                assert(pl@[k].1 == x && qset.contains(pl@[k].0) && pl@[k].2 == t);
            }
        }
    }
    r
}

/// The wildcard-edge destinations from the states in `q`.
fn collect_wdests<T: Copy + Eq>(nfa: &NFAutoBlueprint<u64, T>, q: &Vec<u64>) -> (r: Vec<u64>)
    requires
        obeys_concrete_eq::<u64>(),
    ensures
        r@.no_duplicates(),
        r@.to_set() == wdests(nfa@, q@.to_set()),
{
    broadcast use vstd::set::group_set_axioms;

    let wl = nfa.wilds_vec();
    let ghost qset = q@.to_set();
    let mut r: Vec<u64> = Vec::new();
    proof {
        assert(r@.to_set() =~= Set::<u64>::empty());
    }
    let mut i: usize = 0;
    while i < wl.len()
        invariant
            obeys_concrete_eq::<u64>(),
            i <= wl@.len(),
            qset == q@.to_set(),
            wl@.to_set() == nfa@.wilds,
            r@.no_duplicates(),
            r@.to_set() == Set::new(
                |t: u64|
                    exists|k: int|
                        0 <= k < i && qset.contains(#[trigger] wl@[k].0) && wl@[k].1 == t,
            ),
        decreases wl@.len() - i,
    {
        let (f, t) = wl[i];
        let ghost pre = r@.to_set();
        if crate::support::seq_has(q, f) {
            crate::support::set_insert(&mut r, t);
            proof {
                assert(qset.contains(f));
                assert(r@.to_set() =~= Set::new(
                    |t2: u64|
                        exists|k: int|
                            0 <= k < i + 1 && qset.contains(#[trigger] wl@[k].0) && wl@[k].1
                                == t2,
                ));
            }
        } else {
            proof {
                assert(r@.to_set() =~= Set::new(
                    |t2: u64|
                        exists|k: int|
                            0 <= k < i + 1 && qset.contains(#[trigger] wl@[k].0) && wl@[k].1
                                == t2,
                ));
            }
        }
        i += 1;
    }
    proof {
        assert(r@.to_set() =~= wdests(nfa@, qset)) by {
            assert forall|t: u64| r@.to_set().contains(t) implies wdests(nfa@, qset).contains(
                t,
            ) by {
                let k = choose|k: int|
                    0 <= k < wl@.len() && qset.contains(#[trigger] wl@[k].0) && wl@[k].1 == t;
                assert(wl@.contains((wl@[k].0, t)));
                assert(nfa@.wilds.contains((wl@[k].0, t)));
            }
            assert forall|t: u64| wdests(nfa@, qset).contains(t) implies r@.to_set().contains(
                t,
            ) by {
                let s = choose|s: u64| qset.contains(s) && #[trigger] nfa@.wilds.contains((s, t));
                assert(wl@.contains((s, t)));
                let k = choose|k: int| 0 <= k < wl@.len() && wl@[k] == (s, t);
                assert(qset.contains(wl@[k].0) && wl@[k].1 == t);
            }
        }
    }
    r
}

/// Whether an earlier plain edge already carried this label from `q`.
fn label_seen_before<T: Copy + Eq>(
    pl: &Vec<(u64, T, u64)>,
    upto: usize,
    x: T,
    q: &Vec<u64>,
) -> (r: bool)
    requires
        obeys_concrete_eq::<u64>(),
        obeys_concrete_eq::<T>(),
        upto <= pl@.len(),
    ensures
        r == label_seen(pl@, q@.to_set(), upto as int, x),
{
    let mut e: usize = 0;
    while e < upto
        invariant
            obeys_concrete_eq::<u64>(),
            obeys_concrete_eq::<T>(),
            e <= upto <= pl@.len(),
            forall|k: int| 0 <= k < e ==> !(#[trigger] pl@[k].1 == x && q@.to_set().contains(pl@[k].0)),
        decreases upto - e,
    {
        proof {
            reveal(vstd::laws_eq::obeys_concrete_eq);
        }
        let (f, l, _t) = pl[e];
        if l == x && crate::support::seq_has(q, f) {
            proof {
                assert(q@.to_set().contains(f));
            }
            return true;
        } else {
            proof {
                assert(!(pl@[e as int].1 == x && q@.to_set().contains(pl@[e as int].0))) by {
                    if pl@[e as int].1 == x && q@.to_set().contains(pl@[e as int].0) {
                        assert(q@.contains(f));
                    }
                }
            }
        }
        e += 1;
    }
    false
}

/// The identifier already naming this canonical subset, if any.
fn find_rep(reps: &Vec<Vec<u64>>, c: &Vec<u64>) -> (r: Option<usize>)
    ensures
        r.is_some() ==> (r.unwrap() as int) < reps@.len() && reps@[r.unwrap() as int]@ == c@,
        r.is_none() ==> forall|j: int| 0 <= j < reps@.len() ==> reps@[j]@ != c@,
{
    let mut j: usize = 0;
    while j < reps.len()
        invariant
            j <= reps@.len(),
            forall|k: int| 0 <= k < j ==> reps@[k]@ != c@,
        decreases reps@.len() - j,
    {
        if vec_u64_eq(&reps[j], c) {
            return Some(j);
        }
        j += 1;
    }
    None
}

/// The loop invariant of the determinizer: `reps` names the canonical state
/// subsets discovered so far, `done` the identifiers whose outgoing edges
/// have been emitted, `pending` an identifier taken off the work list but
/// not yet finished, and the builder holds exactly the emitted structure.
spec fn det_inv<T: Copy + Eq>(
    n: crate::nfa::NfaShape<u64, T>,
    reps: Seq<Vec<u64>>,
    wl: Seq<usize>,
    b: crate::dfa::DFAutoBuilder<u64, T>,
    done: Set<u64>,
    pending: Set<u64>,
    uni: Set<u64>,
) -> bool {
    &&& 1 <= reps.len() <= two_to(uni.len())
    &&& rep_sets(reps)[0] == n.initial()
    &&& (forall|i: int| 0 <= i < reps.len() ==> sorted_strict(#[trigger] reps[i]@))
    &&& (forall|i: int| 0 <= i < reps.len() ==> (#[trigger] reps[i]@).no_duplicates())
    &&& (forall|i: int| 0 <= i < reps.len() ==> (#[trigger] reps[i]@).to_set().subset_of(uni))
    &&& (forall|i: int, j: int| 0 <= i < j < reps.len() ==> reps[i]@ != reps[j]@)
    &&& b.wf()
    &&& b@.start == 0u64
    &&& wl.no_duplicates()
    &&& (forall|k: int| 0 <= k < wl.len() ==> (#[trigger] wl[k] as int) < reps.len())
    &&& (forall|i: usize|
        i < reps.len() ==> ((#[trigger] done.contains(i as u64) || pending.contains(i as u64))
            <==> !wl.contains(i)))
    &&& (forall|s: u64| done.contains(s) ==> (s as int) < reps.len())
    &&& (forall|s: u64| #[trigger] b@.accepts.contains(s) ==> done.contains(s) || pending.contains(s))
    &&& (forall|s: u64|
        done.contains(s) ==> (b@.accepts.contains(s) <==> n.accepting(
            #[trigger] rep_sets(reps)[s as int],
        )))
    &&& (forall|s: u64, x: T| #[trigger]
        b@.plain.dom().contains((s, x)) ==> done.contains(s) || pending.contains(s))
    &&& (forall|s: u64, x: T|
        done.contains(s) ==> (#[trigger] b@.plain.dom().contains((s, x)) <==> pdests(
            n,
            rep_sets(reps)[s as int],
            x,
        ) != Set::<u64>::empty()))
    &&& (forall|s: u64, x: T| #[trigger]
        b@.plain.dom().contains((s, x)) ==> (b@.plain[(s, x)] as int) < reps.len() && rep_sets(
            reps,
        )[b@.plain[(s, x)] as int] == n.step(rep_sets(reps)[s as int], x))
    &&& (forall|s: u64| #[trigger]
        b@.fallback.dom().contains(s) ==> done.contains(s) || pending.contains(s))
    &&& (forall|s: u64|
        done.contains(s) ==> (#[trigger] b@.fallback.dom().contains(s) <==> wdests(
            n,
            rep_sets(reps)[s as int],
        ) != Set::<u64>::empty()))
    &&& (forall|s: u64| #[trigger]
        b@.fallback.dom().contains(s) ==> (b@.fallback[s] as int) < reps.len() && rep_sets(
            reps,
        )[b@.fallback[s] as int] == wmove(n, rep_sets(reps)[s as int]))
}

proof fn lemma_two_to_pos(n: nat)
    ensures
        two_to(n) >= 1,
    decreases n,
{
    if n > 0 {
        lemma_two_to_pos((n - 1) as nat);
    }
}

proof fn lemma_rep_sets_push(reps: Seq<Vec<u64>>, c: Vec<u64>)
    ensures
        rep_sets(reps.push(c)) == rep_sets(reps).push(c@.to_set()),
        forall|i: int| 0 <= i < reps.len() ==> rep_sets(reps.push(c))[i] == rep_sets(reps)[i],
{
    assert(rep_sets(reps.push(c)) =~= rep_sets(reps).push(c@.to_set()));
}

/// The invariant of the label-processing pass for the set named `idu`.
spec fn det_label_inv<T: Copy + Eq>(
    n: crate::nfa::NfaShape<u64, T>,
    reps: Seq<Vec<u64>>,
    wl: Seq<usize>,
    b: crate::dfa::DFAutoBuilder<u64, T>,
    done: Set<u64>,
    uni: Set<u64>,
    idu: u64,
    qset: Set<u64>,
    pl: Seq<(u64, T, u64)>,
    upto: int,
) -> bool {
    &&& det_inv(n, reps, wl, b, done, Set::<u64>::empty().insert(idu), uni)
    &&& (idu as int) < reps.len()
    &&& !done.contains(idu)
    &&& !wl.contains(idu as usize)
    &&& qset == rep_sets(reps)[idu as int]
    &&& (b@.accepts.contains(idu) <==> n.accepting(qset))
    &&& (forall|x: T| #[trigger] b@.plain.dom().contains((idu, x)) <==> label_seen(
        pl,
        qset,
        upto,
        x,
    ))
    &&& !b@.fallback.dom().contains(idu)
}

/// Converts an NFA blueprint into a DFA blueprint by subset construction.
/// Each deterministic state names, by index, one distinct epsilon-closed set
/// of NFA states; the start is state `0`, the epsilon closure of the NFA's
/// start state.  Per state set, the accept mark is set when the set touches
/// the NFA's accept states, a labeled edge is emitted for every label with a
/// nonempty plain move — its destination the closure of the plain and
/// wildcard destinations together, one full NFA step — and a fallback edge
/// when the wildcard move is nonempty.  The result decides exactly the
/// sequences the NFA walker accepts.
pub fn determinize<T: Copy + Eq>(nfa: &NFAutoBlueprint<u64, T>) -> (r: DFAutoBlueprint<u64, T>)
    requires
        obeys_concrete_eq::<T>(),
        nfa.wf(),
    ensures
        r.wf(),
        r@.start == 0u64,
        forall|seq: Seq<T>| #[trigger] r@.test_from(0u64, seq) == nfa@.test_from(
            nfa@.initial(),
            seq,
        ),
        exists|m: Seq<Set<u64>>|
            #[trigger] dfa_simulates(r@, nfa@, m) && m.len() >= 1 && m[0] == nfa@.initial(),
{
    broadcast use vstd::set::group_set_axioms;
    broadcast use vstd::seq_lib::group_seq_lib_default;

    proof {
        broadcast use vstd::laws_eq::group_laws_eq;

        assert(obeys_concrete_eq::<u64>());
    }
    let ghost uni = universe(nfa@);
    let pl = nfa.plain_vec();
    let vd = nfa.voids_vec();
    let wd = nfa.wilds_vec();
    proof {
        assert(nfa@.plain.finite());
        assert(nfa@.voids.finite());
        assert(nfa@.wilds.finite());
        lemma_universe(nfa@);
    }
    let mut seed: Vec<u64> = Vec::new();
    seed.push(*nfa.start_state());
    proof {
        assert(seed@.to_set() =~= Set::<u64>::empty().insert(nfa@.start)) by {
            assert(seed@[0] == nfa@.start);
            assert forall|y: u64| seed@.contains(y) implies y == nfa@.start by {
                let ix = choose|ix: int| 0 <= ix < seed@.len() && seed@[ix] == y;
            }
        }
    }
    let init = extend_state_set(nfa, &seed);
    let init_c = canonicalize(&init);
    let mut reps: Vec<Vec<u64>> = Vec::new();
    reps.push(init_c);
    let mut worklist: Vec<usize> = Vec::new();
    worklist.push(0);
    let mut builder = crate::dfa::DFAutoBuilder::<u64, T>::start(0);
    let ghost mut done: Set<u64> = Set::empty();
    proof {
        lemma_two_to_pos(uni.len());
        assert(rep_sets(reps@)[0] == init_c@.to_set());
        assert(rep_sets(reps@)[0] == nfa@.initial());
        assert(reps@[0]@.to_set().subset_of(uni));
        assert(worklist@[0] == 0usize);
        assert(worklist@.contains(0usize));
        assert(det_inv(nfa@, reps@, worklist@, builder, done, Set::<u64>::empty(), uni));
    }
    while worklist.len() > 0
        invariant
            obeys_concrete_eq::<T>(),
            obeys_concrete_eq::<u64>(),
            nfa.wf(),
            uni == universe(nfa@),
            uni.finite(),
            nfa@.initial().subset_of(uni),
            forall|a: Set<u64>, x: T| #[trigger] nfa@.step(a, x).subset_of(uni),
            forall|a: Set<u64>| #[trigger] wmove(nfa@, a).subset_of(uni),
            pl@.to_set() == nfa@.plain,
            vd@.to_set() == nfa@.voids,
            wd@.to_set() == nfa@.wilds,
            det_inv(nfa@, reps@, worklist@, builder, done, Set::<u64>::empty(), uni),
        decreases two_to(uni.len()) - reps@.len(), worklist@.len(),
    {
        let ghost reps0 = reps@;
        let ghost wl0 = worklist@;
        let id = worklist.pop().unwrap();
        let ghost idu = id as u64;
        let ghost wl1 = worklist@;
        proof {
            assert(wl0[wl0.len() - 1] == id);
            assert(wl0.contains(id));
            assert((id as int) < reps@.len());
            assert(!done.contains(idu));
            assert(!worklist@.contains(id)) by {
                if worklist@.contains(id) {
                    let k = choose|k: int| 0 <= k < wl1.len() && wl1[k] == id;
                    assert(wl0[k] == id);
                    assert(k != wl0.len() - 1);
                }
            }
            assert forall|i: usize| i < reps@.len() && i != id implies (#[trigger] wl0.contains(
                i,
            ) == worklist@.contains(i)) by {
                if wl0.contains(i) {
                    let k = choose|k: int| 0 <= k < wl0.len() && wl0[k] == i;
                    assert(k != wl0.len() - 1);
                    assert(wl1[k] == i);
                    assert(wl1.contains(i));
                }
                if wl1.contains(i) {
                    let k = choose|k: int| 0 <= k < wl1.len() && wl1[k] == i;
                    assert(wl0[k] == i);
                    assert(wl0.contains(i));
                }
            }
        }
        let q = vec_copy(&reps[id]);
        let ghost qset = q@.to_set();
        proof {
            assert(qset == rep_sets(reps@)[id as int]);
            assert(!builder@.accepts.contains(idu));
        }
        let acc_now = set_accepting(nfa, &q);
        if acc_now {
            builder = builder.accept(id as u64);
        }
        let ghost done_mid = done;
        proof {
            assert(det_label_inv(
                nfa@,
                reps@,
                worklist@,
                builder,
                done,
                uni,
                idu,
                qset,
                pl@,
                0int,
            ));
        }
        let wdest = collect_wdests(nfa, &q);
        let ghost wtarget = wmove(nfa@, qset);
        let mut e1: usize = 0;
        while e1 < pl.len()
            invariant
                obeys_concrete_eq::<T>(),
                obeys_concrete_eq::<u64>(),
                nfa.wf(),
                uni == universe(nfa@),
                uni.finite(),
                forall|a: Set<u64>, x: T| #[trigger] nfa@.step(a, x).subset_of(uni),
                forall|a: Set<u64>| #[trigger] wmove(nfa@, a).subset_of(uni),
                pl@.to_set() == nfa@.plain,
                vd@.to_set() == nfa@.voids,
                wd@.to_set() == nfa@.wilds,
                wdest@.no_duplicates(),
                wdest@.to_set() == wdests(nfa@, qset),
                e1 <= pl@.len(),
                idu == id as u64,
                done == done_mid,
                qset == q@.to_set(),
                det_label_inv(nfa@, reps@, worklist@, builder, done, uni, idu, qset, pl@, e1 as int),
                reps0.len() <= reps@.len(),
                forall|i: int| 0 <= i < reps0.len() ==> reps@[i] == reps0[i],
                worklist@.len() + reps0.len() == wl1.len() + reps@.len(),
            decreases pl@.len() - e1,
        {
            proof {
                reveal(vstd::laws_eq::obeys_concrete_eq);
            }
            let (f, x, _t0) = pl[e1];
            let f_in = crate::support::seq_has(&q, f);
            let seen = label_seen_before(pl, e1, x, &q);
            if f_in && !seen {
                let dests = collect_pdests(nfa, &q, x);
                proof {
                    assert(qset.contains(f));
                    assert(pl@.contains(pl@[e1 as int]));
                    assert(nfa@.plain.contains((f, x, pl@[e1 as int].2)));
                    assert(pdests(nfa@, qset, x).contains(pl@[e1 as int].2));
                }
                let mut closed = dests;
                crate::support::set_extend(&mut closed, &wdest);
                crate::nfa::close_over(vd, &mut closed);
                let c = canonicalize(&closed);
                let ghost target = nfa@.step(qset, x);
                proof {
                    lemma_step_is_move_union(nfa@, qset, x);
                    assert(c@.to_set() == target);
                    assert(target.subset_of(uni));
                }
                let id2: usize;
                match find_rep(&reps, &c) {
                    Some(j) => {
                        id2 = j;
                        proof {
                            assert(rep_sets(reps@)[j as int] == target);
                        }
                    },
                    None => {
                        id2 = reps.len();
                        let ghost reps_pre = reps@;
                        let ghost wl_pre = worklist@;
                        reps.push(c);
                        worklist.push(id2);
                        proof {
                            assert(worklist@.drop_last() =~= wl_pre);
                            lemma_rep_sets_push(reps_pre, c);
                            lemma_reps_bound(reps@, uni);
                            assert(rep_sets(reps@)[id2 as int] == target);
                            assert(qset == rep_sets(reps@)[idu as int]);
                            assert(!done.contains(id2 as u64)) by {
                                if done.contains(id2 as u64) {
                                    assert((id2 as int) < reps_pre.len());
                                }
                            }
                            assert forall|i: usize|
                                i < reps@.len() && i != id2 implies (#[trigger] worklist@.contains(
                                i,
                            ) == worklist@.drop_last().contains(i)) by {
                                if worklist@.contains(i) {
                                    let k = choose|k: int|
                                        0 <= k < worklist@.len() && worklist@[k] == i;
                                    assert(k != worklist@.len() - 1);
                                    assert(worklist@.drop_last()[k] == i);
                                }
                                if worklist@.drop_last().contains(i) {
                                    let k = choose|k: int|
                                        0 <= k < worklist@.drop_last().len()
                                            && worklist@.drop_last()[k] == i;
                                    assert(worklist@[k] == i);
                                }
                            }
                            assert(worklist@[worklist@.len() - 1] == id2);
                            assert(worklist@.contains(id2));
                            assert(worklist@.no_duplicates()) by {
                                assert forall|p2: int, q2: int|
                                    0 <= p2 < q2 < worklist@.len() implies worklist@[p2]
                                    != worklist@[q2] by {
                                    if q2 == worklist@.len() - 1 {
                                        assert((worklist@[p2] as int) < reps_pre.len());
                                    }
                                }
                            }
                        }
                    },
                }
                builder = builder.connect(id as u64, x, id2 as u64);
                proof {
                    assert(rep_sets(reps@)[builder@.plain[(idu, x)] as int] == nfa@.step(
                        rep_sets(reps@)[idu as int],
                        x,
                    ));
                    assert forall|x2: T| #[trigger] builder@.plain.dom().contains((idu, x2))
                        <==> label_seen(pl@, qset, e1 + 1, x2) by {
                        if x2 == x {
                            assert(pl@[e1 as int].1 == x2 && qset.contains(pl@[e1 as int].0));
                        } else {
                            assert(builder@.plain.dom().contains((idu, x2)) == label_seen(
                                pl@,
                                qset,
                                e1 as int,
                                x2,
                            ));
                            assert(label_seen(pl@, qset, e1 + 1, x2) == label_seen(
                                pl@,
                                qset,
                                e1 as int,
                                x2,
                            )) by {
                                if label_seen(pl@, qset, e1 + 1, x2) && !label_seen(
                                    pl@,
                                    qset,
                                    e1 as int,
                                    x2,
                                ) {
                                    let e = choose|e: int|
                                        0 <= e < e1 + 1 && #[trigger] pl@[e].1 == x2
                                            && qset.contains(pl@[e].0);
                                    assert(e == e1 as int);
                                }
                            }
                        }
                    }
                }
            } else {
                proof {
                    assert forall|x2: T| label_seen(pl@, qset, e1 + 1, x2) == label_seen(
                        pl@,
                        qset,
                        e1 as int,
                        x2,
                    ) by {
                        if label_seen(pl@, qset, e1 + 1, x2) && !label_seen(
                            pl@,
                            qset,
                            e1 as int,
                            x2,
                        ) {
                            let e = choose|e: int|
                                0 <= e < e1 + 1 && #[trigger] pl@[e].1 == x2 && qset.contains(
                                    pl@[e].0,
                                );
                            assert(e == e1 as int);
                            assert(qset.contains(f));
                            assert(q@.contains(f));
                            assert(f_in && pl@[e].1 == x);
                            assert(false);
                        }
                    }
                }
            }
            e1 += 1;
        }
        if wdest.len() > 0 {
            let mut closedw = wdest;
            crate::nfa::close_over(vd, &mut closedw);
            let cw = canonicalize(&closedw);
            proof {
                assert(cw@.to_set() == wtarget);
                assert(wdests(nfa@, qset) != Set::<u64>::empty()) by {
                    assert(wdests(nfa@, qset).contains(wdest@[0]));
                }
                assert(wtarget.subset_of(uni));
            }
            let id2: usize;
            match find_rep(&reps, &cw) {
                Some(j) => {
                    id2 = j;
                    proof {
                        assert(rep_sets(reps@)[j as int] == wtarget);
                    }
                },
                None => {
                    id2 = reps.len();
                    let ghost reps_pre = reps@;
                    let ghost wl_pre = worklist@;
                    reps.push(cw);
                    worklist.push(id2);
                    proof {
                        assert(worklist@.drop_last() =~= wl_pre);
                        lemma_rep_sets_push(reps_pre, cw);
                        lemma_reps_bound(reps@, uni);
                        assert(rep_sets(reps@)[id2 as int] == wtarget);
                        assert(qset == rep_sets(reps@)[idu as int]);
                        assert(!done.contains(id2 as u64)) by {
                            if done.contains(id2 as u64) {
                                assert((id2 as int) < reps_pre.len());
                            }
                        }
                        assert forall|i: usize|
                            i < reps@.len() && i != id2 implies (#[trigger] worklist@.contains(
                            i,
                        ) == worklist@.drop_last().contains(i)) by {
                            if worklist@.contains(i) {
                                let k = choose|k: int|
                                    0 <= k < worklist@.len() && worklist@[k] == i;
                                assert(k != worklist@.len() - 1);
                                assert(worklist@.drop_last()[k] == i);
                            }
                            if worklist@.drop_last().contains(i) {
                                let k = choose|k: int|
                                    0 <= k < worklist@.drop_last().len()
                                        && worklist@.drop_last()[k] == i;
                                assert(worklist@[k] == i);
                            }
                        }
                        assert(worklist@[worklist@.len() - 1] == id2);
                        assert(worklist@.contains(id2));
                        assert(worklist@.no_duplicates()) by {
                            assert forall|p2: int, q2: int|
                                0 <= p2 < q2 < worklist@.len() implies worklist@[p2]
                                != worklist@[q2] by {
                                if q2 == worklist@.len() - 1 {
                                    assert((worklist@[p2] as int) < reps_pre.len());
                                }
                            }
                        }
                    }
                },
            }
            builder = builder.connect_fallback(id as u64, id2 as u64);
        } else {
            proof {
                assert(wdests(nfa@, qset) =~= Set::<u64>::empty());
            }
        }
        proof {
            done = done.insert(idu);
            assert forall|i: usize| i < reps@.len() implies ((#[trigger] done.contains(i as u64)
                || Set::<u64>::empty().contains(i as u64)) <==> !worklist@.contains(i)) by {
                assert((i as u64) as int == i as int);
                assert((idu as int) == id as int);
                if i == id {
                    assert(done.contains(idu));
                } else {
                    assert(i as u64 != idu);
                    assert((done_mid.contains(i as u64) || Set::<u64>::empty().insert(
                        idu,
                    ).contains(i as u64)) <==> !worklist@.contains(i));
                    assert(done.contains(i as u64) == done_mid.contains(i as u64));
                }
            }
            assert forall|x2: T| (#[trigger] builder@.plain.dom().contains((idu, x2)) <==> pdests(
                nfa@,
                rep_sets(reps@)[idu as int],
                x2,
            ) != Set::<u64>::empty()) by {
                lemma_label_seen_pdests(nfa@, pl@, qset, x2);
            }
            assert(det_inv(nfa@, reps@, worklist@, builder, done, Set::<u64>::empty(), uni));
        }
    }
    let out = builder.finalize();
    proof {
        let m = rep_sets(reps@);
        assert(worklist@.len() == 0);
        assert forall|i: usize| i < reps@.len() implies #[trigger] done.contains(i as u64) by {
            assert(!worklist@.contains(i));
        }
        assert(dfa_simulates(out@, nfa@, m)) by {
            assert forall|s: u64| (s as int) < m.len() implies #[trigger] done.contains(s) by {
                broadcast use vstd::std_specs::vec::axiom_spec_len;

                assert(reps.len() == reps@.len());
                let i: usize = s as usize;
                assert(i as u64 == s);
                assert(done.contains(i as u64));
            }
        }
        assert forall|seq: Seq<T>| #[trigger] out@.test_from(0u64, seq) == nfa@.test_from(
            nfa@.initial(),
            seq,
        ) by {
            lemma_sim_test(out@, nfa@, m, 0u64, seq);
            lemma_dsub_matches_nfa(nfa@, nfa@.initial(), seq);
        }
        assert(dfa_simulates(out@, nfa@, m) && m.len() >= 1 && m[0] == nfa@.initial());
    }
    out
}

} // verus!
