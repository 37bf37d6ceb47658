use vstd::prelude::*;

use crate::ltl_parser::Formula;

verus! {

/// A property of the positions of an infinite trace.
pub type PosPred = spec_fn(nat) -> bool;

pub open spec fn pnot(p: PosPred) -> PosPred {
    |i: nat| !p(i)
}

pub open spec fn pand(p: PosPred, q: PosPred) -> PosPred {
    |i: nat| p(i) && q(i)
}

pub open spec fn por(p: PosPred, q: PosPred) -> PosPred {
    |i: nat| p(i) || q(i)
}

pub open spec fn pimplies(p: PosPred, q: PosPred) -> PosPred {
    |i: nat| p(i) ==> q(i)
}

pub open spec fn next(p: PosPred) -> PosPred {
    |i: nat| p(i + 1)
}

pub open spec fn eventually(p: PosPred) -> PosPred {
    |i: nat| exists|j: nat| i <= j && #[trigger] p(j)
}

pub open spec fn globally(p: PosPred) -> PosPred {
    |i: nat| forall|j: nat| i <= j ==> #[trigger] p(j)
}

/// `p U q`: `q` holds at some position from `i` on, and `p` at every position before it.
pub open spec fn until(p: PosPred, q: PosPred) -> PosPred {
    |i: nat| exists|k: nat| i <= k && #[trigger] q(k) && forall|j: nat| i <= j < k ==> #[trigger] p(j)
}

/// `p R q`: `q` holds at every position from `i` on up to and including the first one where
/// `p` holds, or forever.
pub open spec fn release(p: PosPred, q: PosPred) -> PosPred {
    |i: nat|
        forall|k: nat| i <= k ==> #[trigger] q(k) || exists|j: nat| i <= j < k && #[trigger] p(j)
}

/// `p W q`: `p U q`, or `p` forever.
pub open spec fn weak_until(p: PosPred, q: PosPred) -> PosPred {
    |i: nat| until(p, q)(i) || globally(p)(i)
}

/// `p M q`: `p` holds at some position from `i` on, and `q` at every position up to it.
pub open spec fn mighty_release(p: PosPred, q: PosPred) -> PosPred {
    |i: nat|
        exists|k: nat| i <= k && #[trigger] p(k) && forall|j: nat| i <= j <= k ==> #[trigger] q(j)
}

/// The positions of the infinite trace `w` at which `f` holds, where `w(j, p)` is the truth
/// of the atomic proposition `p` at position `j`. Path quantifiers are read over the single
/// trace.
pub open spec fn holds(f: Formula, w: spec_fn(nat, Formula) -> bool) -> PosPred
    decreases f,
{
    match f {
        Formula::True => |i: nat| true,
        Formula::False => |i: nat| false,
        Formula::Not(a) => pnot(holds(*a, w)),
        Formula::And(a, b) => pand(holds(*a, w), holds(*b, w)),
        Formula::Or(a, b) => por(holds(*a, w), holds(*b, w)),
        Formula::Implies(a, b) => pimplies(holds(*a, w), holds(*b, w)),
        Formula::Next(a) => next(holds(*a, w)),
        Formula::Eventually(a) => eventually(holds(*a, w)),
        Formula::Globally(a) => globally(holds(*a, w)),
        Formula::AllPaths(a) => holds(*a, w),
        Formula::SomePath(a) => holds(*a, w),
        Formula::Until(a, b) => until(holds(*a, w), holds(*b, w)),
        Formula::Release(a, b) => release(holds(*a, w), holds(*b, w)),
        Formula::WeakUntil(a, b) => weak_until(holds(*a, w), holds(*b, w)),
        Formula::MightyRelease(a, b) => mighty_release(holds(*a, w), holds(*b, w)),
        _ => |i: nat| w(i, f),
    }
}

/// Two formulas are equivalent when they hold at the same positions of every trace.
pub open spec fn equivalent(f: Formula, g: Formula) -> bool {
    forall|w: spec_fn(nat, Formula) -> bool| #[trigger] holds(f, w) == holds(g, w)
}

/// Among the positions from `i` on where `p` holds, there is a first one.
pub proof fn lemma_first_position(p: PosPred, i: nat, k: nat) -> (k0: nat)
    requires
        i <= k,
        p(k),
    ensures
        i <= k0 <= k,
        p(k0),
        forall|j: nat| i <= j < k0 ==> !#[trigger] p(j),
    decreases k - i,
{
    if i == k {
        k
    } else if p(i) {
        i
    } else {
        lemma_first_position(p, i + 1, k)
    }
}

/// `!(p W q) = !p M !q`.
pub proof fn lemma_not_weak_until(p: PosPred, q: PosPred)
    ensures
        pnot(weak_until(p, q)) == mighty_release(pnot(p), pnot(q)),
{
    assert forall|i: nat| #[trigger] pnot(weak_until(p, q))(i) == mighty_release(pnot(p), pnot(q))(
        i,
    ) by {
        if mighty_release(pnot(p), pnot(q))(i) {
            let k = choose|k: nat|
                i <= k && #[trigger] pnot(p)(k) && forall|j: nat| i <= j <= k ==> #[trigger] pnot(
                    q,
                )(j);
            assert(!p(k));
            assert forall|k2: nat| i <= k2 && #[trigger] q(k2) implies !(forall|j: nat|
                i <= j < k2 ==> #[trigger] p(j)) by {
                if k2 <= k {
                    assert(pnot(q)(k2));
                } else {
                    assert(i <= k < k2);
                }
            }
            assert(!until(p, q)(i));
            assert(!globally(p)(i));
        } else if !weak_until(p, q)(i) {
            assert(!globally(p)(i));
            let k = choose|k: nat| i <= k && !#[trigger] p(k);
            let k0 = lemma_first_position(pnot(p), i, k);
            assert forall|j: nat| i <= j <= k0 implies #[trigger] pnot(q)(j) by {
                if q(j) {
                    assert forall|j2: nat| i <= j2 < j implies #[trigger] p(j2) by {
                        assert(!pnot(p)(j2));
                    }
                    assert(until(p, q)(i));
                }
            }
            assert(pnot(p)(k0));
        }
    }
    assert(pnot(weak_until(p, q)) =~= mighty_release(pnot(p), pnot(q)));
}

/// `!(p M q) = !p W !q`.
pub proof fn lemma_not_mighty_release(p: PosPred, q: PosPred)
    ensures
        pnot(mighty_release(p, q)) == weak_until(pnot(p), pnot(q)),
{
    assert forall|i: nat| #[trigger] pnot(mighty_release(p, q))(i) == weak_until(pnot(p), pnot(q))(
        i,
    ) by {
        if mighty_release(p, q)(i) {
            let k = choose|k: nat|
                i <= k && #[trigger] p(k) && forall|j: nat| i <= j <= k ==> #[trigger] q(j);
            assert(!pnot(p)(k));
            assert forall|k2: nat| i <= k2 && #[trigger] pnot(q)(k2) implies !(forall|j: nat|
                i <= j < k2 ==> #[trigger] pnot(p)(j)) by {
                if k2 <= k {
                    assert(q(k2));
                } else {
                    assert(i <= k < k2);
                }
            }
            assert(!until(pnot(p), pnot(q))(i));
            assert(!globally(pnot(p))(i));
        } else {
            if !globally(pnot(p))(i) {
                let k = choose|k: nat| i <= k && !#[trigger] pnot(p)(k);
                let k0 = lemma_first_position(p, i, k);
                assert(!(forall|j: nat| i <= j <= k0 ==> #[trigger] q(j)));
                let j0 = choose|j0: nat| i <= j0 <= k0 && !#[trigger] q(j0);
                assert forall|j2: nat| i <= j2 < j0 implies #[trigger] pnot(p)(j2) by {
                    assert(!p(j2));
                }
                assert(pnot(q)(j0));
                assert(until(pnot(p), pnot(q))(i));
            }
        }
    }
    assert(pnot(mighty_release(p, q)) =~= weak_until(pnot(p), pnot(q)));
}

/// `p W q = q R (p | q)`.
pub proof fn lemma_weak_until_as_release(p: PosPred, q: PosPred)
    ensures
        weak_until(p, q) == release(q, por(p, q)),
{
    assert forall|i: nat| #[trigger] weak_until(p, q)(i) == release(q, por(p, q))(i) by {
        if weak_until(p, q)(i) {
            if globally(p)(i) {
                assert forall|k: nat| i <= k implies #[trigger] por(p, q)(k) || exists|j: nat|
                    i <= j < k && #[trigger] q(j) by {
                    assert(p(k));
                }
            } else {
                let k0 = choose|k: nat|
                    i <= k && #[trigger] q(k) && forall|j: nat| i <= j < k ==> #[trigger] p(j);
                assert forall|k: nat| i <= k implies #[trigger] por(p, q)(k) || exists|j: nat|
                    i <= j < k && #[trigger] q(j) by {
                    if k < k0 {
                        assert(p(k));
                    } else if k == k0 {
                        assert(q(k));
                    } else {
                        assert(q(k0));
                    }
                }
            }
            assert(release(q, por(p, q))(i));
        } else if release(q, por(p, q))(i) {
            assert(!globally(p)(i));
            let k = choose|k: nat| i <= k && !#[trigger] p(k);
            let k0 = lemma_first_position(pnot(p), i, k);
            assert(por(p, q)(k0) || exists|j: nat| i <= j < k0 && #[trigger] q(j));
            if q(k0) {
                assert forall|j2: nat| i <= j2 < k0 implies #[trigger] p(j2) by {
                    assert(!pnot(p)(j2));
                }
                assert(until(p, q)(i));
            } else {
                let j0 = choose|j: nat| i <= j < k0 && #[trigger] q(j);
                assert forall|j2: nat| i <= j2 < j0 implies #[trigger] p(j2) by {
                    assert(!pnot(p)(j2));
                }
                assert(until(p, q)(i));
            }
        }
    }
    assert(weak_until(p, q) =~= release(q, por(p, q)));
}

/// `p M q = q U (p & q)`.
pub proof fn lemma_mighty_release_as_until(p: PosPred, q: PosPred)
    ensures
        mighty_release(p, q) == until(q, pand(p, q)),
{
    assert forall|i: nat| #[trigger] mighty_release(p, q)(i) == until(q, pand(p, q))(i) by {
        if mighty_release(p, q)(i) {
            let k = choose|k: nat|
                i <= k && #[trigger] p(k) && forall|j: nat| i <= j <= k ==> #[trigger] q(j);
            assert(pand(p, q)(k));
        }
        if until(q, pand(p, q))(i) {
            let k = choose|k: nat|
                i <= k && #[trigger] pand(p, q)(k) && forall|j: nat| i <= j < k ==> #[trigger] q(j);
            assert(p(k));
        }
    }
    assert(mighty_release(p, q) =~= until(q, pand(p, q)));
}

/// `X (p U q) = X p U X q`.
pub proof fn lemma_next_until(p: PosPred, q: PosPred)
    ensures
        next(until(p, q)) == until(next(p), next(q)),
{
    assert forall|i: nat| #[trigger] next(until(p, q))(i) == until(next(p), next(q))(i) by {
        if until(p, q)(i + 1) {
            let k = choose|k: nat|
                i + 1 <= k && #[trigger] q(k) && forall|j: nat| i + 1 <= j < k ==> #[trigger] p(j);
            let k1 = (k - 1) as nat;
            assert(next(q)(k1));
            assert forall|j: nat| i <= j < k1 implies #[trigger] next(p)(j) by {
                assert(p(j + 1));
            }
        }
        if until(next(p), next(q))(i) {
            let k = choose|k: nat|
                i <= k && #[trigger] next(q)(k) && forall|j: nat| i <= j < k ==> #[trigger] next(
                    p,
                )(j);
            assert(q(k + 1));
            assert forall|j: nat| i + 1 <= j < k + 1 implies #[trigger] p(j) by {
                assert(next(p)((j - 1) as nat));
            }
        }
    }
    assert(next(until(p, q)) =~= until(next(p), next(q)));
}

/// `G G p = G p`.
pub proof fn lemma_globally_globally(p: PosPred)
    ensures
        globally(globally(p)) == globally(p),
{
    assert forall|i: nat| #[trigger] globally(globally(p))(i) == globally(p)(i) by {
        if globally(p)(i) {
            assert forall|j: nat| i <= j implies #[trigger] globally(p)(j) by {
                assert forall|k: nat| j <= k implies #[trigger] p(k) by {
                    assert(i <= k);
                }
            }
        }
        if globally(globally(p))(i) {
            assert(globally(p)(i));
        }
    }
    assert(globally(globally(p)) =~= globally(p));
}

/// `F F p = F p`.
pub proof fn lemma_eventually_eventually(p: PosPred)
    ensures
        eventually(eventually(p)) == eventually(p),
{
    assert forall|i: nat| #[trigger] eventually(eventually(p))(i) == eventually(p)(i) by {
        if eventually(eventually(p))(i) {
            let j = choose|j: nat| i <= j && #[trigger] eventually(p)(j);
            let k = choose|k: nat| j <= k && #[trigger] p(k);
            assert(i <= k);
        }
        if eventually(p)(i) {
            assert(eventually(p)(i));
        }
    }
    assert(eventually(eventually(p)) =~= eventually(p));
}

} // verus!
