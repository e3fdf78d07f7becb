//! Regular-expression trees and their Thompson-style compilation to an NFA.
//!
//! Compilation allocates state `0` as the overall start and state `1` as the
//! sole accept state, then recursively lays the tree out between boundary
//! states, drawing fresh intermediate states from a monotonically increasing
//! counter that is never reused.

use vstd::prelude::*;

verus! {

use vstd::laws_eq::obeys_concrete_eq;
use crate::nfa::{NfaShape, NFAutoBlueprint, NFAutoBuilder};

pub(crate) enum RePriv<T> {
    Plain(T),
    ZeroOrMore(Box<RePriv<T>>),
    Concat(Box<RePriv<T>>, Box<RePriv<T>>),
    Either(Box<RePriv<T>>, Box<RePriv<T>>),
    Wildcard,
}

/// A regular expression over symbols of type `T`, with the five forms
/// `plain`, `zero_or_more`, `concat`, `either` and `wildcard`.
pub struct Re<T>(RePriv<T>);

/// What compiling one subtree between boundary states contributes: the edges
/// drawn, and how many fresh state identifiers were consumed.
#[verifier::reject_recursive_types(T)]
#[verifier::ext_equal]
pub struct ReWiring<T> {
    pub plain: Set<(u64, T, u64)>,
    pub voids: Set<(u64, u64)>,
    pub wilds: Set<(u64, u64)>,
    pub used: nat,
}

impl<T> RePriv<T> {
    /// The wiring-table of the construction: which edges a subtree draws
    /// between boundary states `l` and `r` when the next fresh state
    /// identifier is `c`.
    pub(crate) open spec fn wire(&self, l: u64, r: u64, c: u64) -> ReWiring<T>
        decreases self,
    {
        match self {
            RePriv::Plain(x) => ReWiring {
                plain: Set::empty().insert((l, *x, r)),
                voids: Set::empty(),
                wilds: Set::empty(),
                used: 0,
            },
            RePriv::Wildcard => ReWiring {
                plain: Set::empty(),
                voids: Set::empty(),
                wilds: Set::empty().insert((l, r)),
                used: 0,
            },
            RePriv::ZeroOrMore(inner) => {
                let w = inner.wire(c, (c + 1) as u64, (c + 2) as u64);
                ReWiring {
                    plain: w.plain,
                    voids: w.voids.insert((l, c)).insert(((c + 1) as u64, r)).insert(
                        ((c + 1) as u64, c),
                    ).insert((l, r)),
                    wilds: w.wilds,
                    used: 2 + w.used,
                }
            },
            RePriv::Concat(a, b) => {
                let wa = a.wire(l, c, (c + 1) as u64);
                let wb = b.wire(c, r, (c + 1 + wa.used) as u64);
                ReWiring {
                    plain: wa.plain.union(wb.plain),
                    voids: wa.voids.union(wb.voids),
                    wilds: wa.wilds.union(wb.wilds),
                    used: 1 + wa.used + wb.used,
                }
            },
            RePriv::Either(a, b) => {
                let wa = a.wire(c, (c + 1) as u64, (c + 4) as u64);
                let wb = b.wire((c + 2) as u64, (c + 3) as u64, (c + 4 + wa.used) as u64);
                ReWiring {
                    plain: wa.plain.union(wb.plain),
                    voids: wa.voids.union(wb.voids).insert((l, c)).insert((l, (c + 2) as u64))
                        .insert(((c + 1) as u64, r)).insert(((c + 3) as u64, r)),
                    wilds: wa.wilds.union(wb.wilds),
                    used: 4 + wa.used + wb.used,
                }
            },
        }
    }
}

impl<T: Copy + Eq> RePriv<T> {
    /// Compiles the tree into an NFA with start state `0` and accept state
    /// `1`, the intermediate states drawn from `2` upward.
    pub(crate) fn compile(self) -> (r: NFAutoBlueprint<u64, T>)
        requires
            obeys_concrete_eq::<T>(),
            2 + self.wire(0, 1, 2).used <= u64::MAX,
        ensures
            r.wf(),
            r@ == (NfaShape {
                start: 0u64,
                accepts: Set::<u64>::empty().insert(1u64),
                plain: self.wire(0, 1, 2).plain,
                voids: self.wire(0, 1, 2).voids,
                wilds: self.wire(0, 1, 2).wilds,
            }),
    {
        proof {
            broadcast use vstd::laws_eq::group_laws_eq;

            assert(obeys_concrete_eq::<u64>());
        }
        let builder = NFAutoBuilder::start(0).accept(1);
        let mut counter: u64 = 2;
        let builder = self.recursive_compile(builder, &mut counter, 0, 1);
        proof {
            assert(builder@.plain =~= self.wire(0, 1, 2).plain);
            assert(builder@.voids =~= self.wire(0, 1, 2).voids);
            assert(builder@.wilds =~= self.wire(0, 1, 2).wilds);
        }
        builder.finalize()
    }

    /// Recursively wires the tree between boundary states `left` and
    /// `right`, drawing fresh states from `counter`.
    fn recursive_compile(
        self,
        builder: NFAutoBuilder<u64, T>,
        counter: &mut u64,
        left: u64,
        right: u64,
    ) -> (r: NFAutoBuilder<u64, T>)
        requires
            obeys_concrete_eq::<T>(),
            builder.wf(),
            *old(counter) + self.wire(left, right, *old(counter)).used <= u64::MAX,
        ensures
            r.wf(),
            *final(counter) == *old(counter) + self.wire(left, right, *old(counter)).used,
            r@ == (NfaShape {
                plain: builder@.plain.union(self.wire(left, right, *old(counter)).plain),
                voids: builder@.voids.union(self.wire(left, right, *old(counter)).voids),
                wilds: builder@.wilds.union(self.wire(left, right, *old(counter)).wilds),
                ..builder@
            }),
        decreases self,
    {
        proof {
            broadcast use vstd::laws_eq::group_laws_eq;

            assert(obeys_concrete_eq::<u64>());
        }
        let ghost c0 = *counter;
        let ghost w = self.wire(left, right, c0);
        match self {
            RePriv::Plain(x) => {
                let b = builder.connect(left, x, right);
                proof {
                    assert(b@ =~= (NfaShape {
                        plain: builder@.plain.union(w.plain),
                        voids: builder@.voids.union(w.voids),
                        wilds: builder@.wilds.union(w.wilds),
                        ..builder@
                    }));
                }
                b
            },
            RePriv::Wildcard => {
                let b = builder.connect_wildcard(left, right);
                proof {
                    assert(b@ =~= (NfaShape {
                        plain: builder@.plain.union(w.plain),
                        voids: builder@.voids.union(w.voids),
                        wilds: builder@.wilds.union(w.wilds),
                        ..builder@
                    }));
                }
                b
            },
            RePriv::ZeroOrMore(inner) => {
                let inner_left = *counter;
                let inner_right = *counter + 1;
                *counter = *counter + 2;
                let b = builder.connect_void(left, inner_left).connect_void(inner_right, right)
                    .connect_void(inner_right, inner_left).connect_void(left, right);
                let b2 = (*inner).recursive_compile(b, counter, inner_left, inner_right);
                proof {
                    assert(b2@ =~= (NfaShape {
                        plain: builder@.plain.union(w.plain),
                        voids: builder@.voids.union(w.voids),
                        wilds: builder@.wilds.union(w.wilds),
                        ..builder@
                    }));
                }
                b2
            },
            RePriv::Concat(a, b) => {
                let middle = *counter;
                *counter = *counter + 1;
                let b1 = (*a).recursive_compile(builder, counter, left, middle);
                let b2 = (*b).recursive_compile(b1, counter, middle, right);
                proof {
                    assert(b2@ =~= (NfaShape {
                        plain: builder@.plain.union(w.plain),
                        voids: builder@.voids.union(w.voids),
                        wilds: builder@.wilds.union(w.wilds),
                        ..builder@
                    }));
                }
                b2
            },
            RePriv::Either(a, b) => {
                let first_left = *counter;
                let first_right = *counter + 1;
                let second_left = *counter + 2;
                let second_right = *counter + 3;
                *counter = *counter + 4;
                let bv = builder.connect_void(left, first_left).connect_void(left, second_left)
                    .connect_void(first_right, right).connect_void(second_right, right);
                let b1 = (*a).recursive_compile(bv, counter, first_left, first_right);
                let b2 = (*b).recursive_compile(b1, counter, second_left, second_right);
                proof {
                    assert(b2@ =~= (NfaShape {
                        plain: builder@.plain.union(w.plain),
                        voids: builder@.voids.union(w.voids),
                        wilds: builder@.wilds.union(w.wilds),
                        ..builder@
                    }));
                }
                b2
            },
        }
    }
}

impl<T: Copy + Eq> Re<T> {
    /// What compiling this tree between boundary states `l` and `r`
    /// contributes, the next fresh state identifier being `c`.
    pub closed spec fn wiring(&self, l: u64, r: u64, c: u64) -> ReWiring<T> {
        self.0.wire(l, r, c)
    }

    /// A tree matching exactly the one symbol `trans`.
    pub fn plain(trans: T) -> (r: Self)
        ensures
            forall|l: u64, rr: u64, c: u64| #[trigger] r.wiring(l, rr, c) == (ReWiring {
                plain: Set::<(u64, T, u64)>::empty().insert((l, trans, rr)),
                voids: Set::<(u64, u64)>::empty(),
                wilds: Set::<(u64, u64)>::empty(),
                used: 0nat,
            }),
    {
        Re(RePriv::Plain(trans))
    }

    /// A tree matching any single symbol.
    pub fn wildcard() -> (r: Self)
        ensures
            forall|l: u64, rr: u64, c: u64| #[trigger] r.wiring(l, rr, c) == (ReWiring {
                plain: Set::<(u64, T, u64)>::empty(),
                voids: Set::<(u64, u64)>::empty(),
                wilds: Set::<(u64, u64)>::empty().insert((l, rr)),
                used: 0nat,
            }),
    {
        Re(RePriv::Wildcard)
    }

    /// A tree matching zero or more repetitions of `inner`.
    pub fn zero_or_more(inner: Self) -> (r: Self)
        ensures
            forall|l: u64, rr: u64, c: u64| #[trigger] r.wiring(l, rr, c) == (ReWiring {
                plain: inner.wiring(c, (c + 1) as u64, (c + 2) as u64).plain,
                voids: inner.wiring(c, (c + 1) as u64, (c + 2) as u64).voids.insert(
                    (l, c),
                ).insert(((c + 1) as u64, rr)).insert(((c + 1) as u64, c)).insert((l, rr)),
                wilds: inner.wiring(c, (c + 1) as u64, (c + 2) as u64).wilds,
                used: 2 + inner.wiring(c, (c + 1) as u64, (c + 2) as u64).used,
            }),
    {
        Re(RePriv::ZeroOrMore(Box::new(inner.0)))
    }

    /// A tree matching `first` followed by `second`.
    pub fn concat(first: Self, second: Self) -> (r: Self)
        ensures
            forall|l: u64, rr: u64, c: u64| #[trigger] r.wiring(l, rr, c) == (ReWiring {
                plain: first.wiring(l, c, (c + 1) as u64).plain.union(
                    second.wiring(c, rr, (c + 1 + first.wiring(l, c, (c + 1) as u64).used) as u64).plain,
                ),
                voids: first.wiring(l, c, (c + 1) as u64).voids.union(
                    second.wiring(c, rr, (c + 1 + first.wiring(l, c, (c + 1) as u64).used) as u64).voids,
                ),
                wilds: first.wiring(l, c, (c + 1) as u64).wilds.union(
                    second.wiring(c, rr, (c + 1 + first.wiring(l, c, (c + 1) as u64).used) as u64).wilds,
                ),
                used: 1 + first.wiring(l, c, (c + 1) as u64).used + second.wiring(
                    c,
                    rr,
                    (c + 1 + first.wiring(l, c, (c + 1) as u64).used) as u64,
                ).used,
            }),
    {
        Re(RePriv::Concat(Box::new(first.0), Box::new(second.0)))
    }

    /// A tree matching either `first` or `second`.
    pub fn either(first: Self, second: Self) -> (r: Self)
        ensures
            forall|l: u64, rr: u64, c: u64| #[trigger] r.wiring(l, rr, c) == (ReWiring {
                plain: first.wiring(c, (c + 1) as u64, (c + 4) as u64).plain.union(
                    second.wiring(
                        (c + 2) as u64,
                        (c + 3) as u64,
                        (c + 4 + first.wiring(c, (c + 1) as u64, (c + 4) as u64).used) as u64,
                    ).plain,
                ),
                voids: first.wiring(c, (c + 1) as u64, (c + 4) as u64).voids.union(
                    second.wiring(
                        (c + 2) as u64,
                        (c + 3) as u64,
                        (c + 4 + first.wiring(c, (c + 1) as u64, (c + 4) as u64).used) as u64,
                    ).voids,
                ).insert((l, c)).insert((l, (c + 2) as u64)).insert(((c + 1) as u64, rr)).insert(
                    ((c + 3) as u64, rr),
                ),
                wilds: first.wiring(c, (c + 1) as u64, (c + 4) as u64).wilds.union(
                    second.wiring(
                        (c + 2) as u64,
                        (c + 3) as u64,
                        (c + 4 + first.wiring(c, (c + 1) as u64, (c + 4) as u64).used) as u64,
                    ).wilds,
                ),
                used: 4 + first.wiring(c, (c + 1) as u64, (c + 4) as u64).used + second.wiring(
                    (c + 2) as u64,
                    (c + 3) as u64,
                    (c + 4 + first.wiring(c, (c + 1) as u64, (c + 4) as u64).used) as u64,
                ).used,
            }),
    {
        Re(RePriv::Either(Box::new(first.0), Box::new(second.0)))
    }

    /// Compiles the tree into an NFA with start state `0` and accept state
    /// `1`; see [`RePriv::compile`] for the layout.
    pub fn compile(self) -> (r: NFAutoBlueprint<u64, T>)
        requires
            obeys_concrete_eq::<T>(),
            2 + self.wiring(0, 1, 2).used <= u64::MAX,
        ensures
            r.wf(),
            r@ == (NfaShape {
                start: 0u64,
                accepts: Set::<u64>::empty().insert(1u64),
                plain: self.wiring(0, 1, 2).plain,
                voids: self.wiring(0, 1, 2).voids,
                wilds: self.wiring(0, 1, 2).wilds,
            }),
    {
        self.0.compile()
    }
}

} // verus!
