//! Small executable helpers that treat a duplicate-free `Vec` as a finite set.
//!
//! The state and label types of the automata are generic, so every membership
//! test goes through `==` on the element type.  The helpers therefore require
//! `obeys_concrete_eq`, which says that the type's `PartialEq` implementation
//! agrees with mathematical equality.

use vstd::prelude::*;

verus! {

use vstd::laws_eq::obeys_concrete_eq;

/// Linear membership test: whether `x` occurs in `v`.
pub(crate) fn seq_has<A: Copy + Eq>(v: &Vec<A>, x: A) -> (r: bool)
    requires
        obeys_concrete_eq::<A>(),
    ensures
        r == v@.contains(x),
{
    let mut i: usize = 0;
    while i < v.len()
        invariant
            obeys_concrete_eq::<A>(),
            i <= v@.len(),
            forall|k: int| 0 <= k < i ==> v@[k] != x,
        decreases v@.len() - i,
    {
        proof {
            reveal(vstd::laws_eq::obeys_concrete_eq);
        }
        if v[i] == x {
            return true;
        }
        i += 1;
    }
    false
}

/// Adds `x` to the set held by `v`, keeping the representation duplicate-free.
pub(crate) fn set_insert<A: Copy + Eq>(v: &mut Vec<A>, x: A)
    requires
        obeys_concrete_eq::<A>(),
        old(v)@.no_duplicates(),
    ensures
        final(v)@.no_duplicates(),
        final(v)@ == (if old(v)@.contains(x) {
            old(v)@
        } else {
            old(v)@.push(x)
        }),
        final(v)@.to_set() == old(v)@.to_set().insert(x),
{
    broadcast use vstd::set::group_set_axioms;

    if !seq_has(v, x) {
        v.push(x);
        proof {
            assert forall|a: A| v@.to_set().contains(a) <==> old(v)@.to_set().insert(x).contains(
                a,
            ) by {
                if a == x {
                    assert(v@[v@.len() - 1] == x);
                    assert(v@.contains(x));
                } else {
                    if old(v)@.contains(a) {
                        let j = choose|j: int| 0 <= j < old(v)@.len() && old(v)@[j] == a;
                        assert(v@[j] == a);
                    }
                    if v@.contains(a) {
                        let j = choose|j: int| 0 <= j < v@.len() && v@[j] == a;
                        assert(old(v)@[j] == a);
                    }
                }
            }
            assert(v@.to_set() =~= old(v)@.to_set().insert(x));
        }
    } else {
        proof {
            assert(v@.to_set() =~= old(v)@.to_set().insert(x));
        }
    }
}

/// Copies a vector of plain values element by element.
pub(crate) fn vec_copy<A: Copy>(v: &Vec<A>) -> (r: Vec<A>)
    ensures
        r@ == v@,
{
    let mut r: Vec<A> = Vec::new();
    let mut i: usize = 0;
    while i < v.len()
        invariant
            i <= v@.len(),
            r@ == v@.take(i as int),
        decreases v@.len() - i,
    {
        r.push(v[i]);
        proof {
            assert(r@ =~= v@.take(i + 1));
        }
        i += 1;
    }
    proof {
        assert(r@ =~= v@);
    }
    r
}

/// Taking one more element of a sequence inserts exactly that element into
/// the set it holds.
pub(crate) proof fn lemma_take_one_more<A>(s: Seq<A>, i: int)
    requires
        0 <= i < s.len(),
    ensures
        s.take(i + 1).to_set() == s.take(i).to_set().insert(s[i]),
{
    broadcast use vstd::set::group_set_axioms;

    assert forall|y: A| s.take(i + 1).to_set().contains(y) implies s.take(i).to_set().insert(
        s[i],
    ).contains(y) by {
        let k = choose|k: int| 0 <= k < s.take(i + 1).len() && #[trigger] s.take(i + 1)[k] == y;
        if k < i {
            assert(s.take(i)[k] == y);
        }
    }
    assert forall|y: A| s.take(i).to_set().insert(s[i]).contains(y) implies s.take(
        i + 1,
    ).to_set().contains(y) by {
        if y == s[i] {
            assert(s.take(i + 1)[i] == y);
        } else {
            let k = choose|k: int| 0 <= k < s.take(i).len() && s.take(i)[k] == y;
            assert(s.take(i + 1)[k] == y);
        }
    }
    assert(s.take(i + 1).to_set() =~= s.take(i).to_set().insert(s[i]));
}

/// Adds every element of `other` to the set held by `v`.
pub(crate) fn set_extend<A: Copy + Eq>(v: &mut Vec<A>, other: &Vec<A>)
    requires
        obeys_concrete_eq::<A>(),
        old(v)@.no_duplicates(),
    ensures
        final(v)@.no_duplicates(),
        final(v)@.to_set() == old(v)@.to_set().union(other@.to_set()),
{
    broadcast use vstd::set::group_set_axioms;

    let ghost v0 = old(v)@.to_set();
    let mut i: usize = 0;
    proof {
        assert(v@.to_set() =~= v0.union(other@.take(0).to_set()));
    }
    while i < other.len()
        invariant
            obeys_concrete_eq::<A>(),
            i <= other@.len(),
            v@.no_duplicates(),
            v@.to_set() == v0.union(other@.take(i as int).to_set()),
        decreases other@.len() - i,
    {
        set_insert(v, other[i]);
        proof {
            lemma_take_one_more(other@, i as int);
            assert(v@.to_set() =~= v0.union(other@.take(i + 1).to_set()));
        }
        i += 1;
    }
    proof {
        assert(other@.take(other@.len() as int) =~= other@);
        assert(v@.to_set() =~= v0.union(other@.to_set()));
    }
}

} // verus!
