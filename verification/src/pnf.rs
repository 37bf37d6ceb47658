use vstd::prelude::*;

use crate::ltl_parser::{lemma_view_variant, ltl_view, Formula, LTL};
use crate::semantics::{
    equivalent, eventually, globally, holds, lemma_eventually_eventually, lemma_globally_globally,
    lemma_mighty_release_as_until, lemma_next_until, lemma_not_mighty_release,
    lemma_not_weak_until, lemma_weak_until_as_release, mighty_release, next, pand, pimplies, pnot, por,
    release, until, weak_until,
};

verus! {

/// A weight that the rewrite of a negation never increases, and that every other rewrite
/// decreases: a negation counts twice its operand.
pub open spec fn pnf_weight(f: Formula) -> nat
    decreases f,
{
    match f {
        Formula::Not(a) => 2 * pnf_weight(*a) + 1,
        Formula::Next(a) | Formula::Eventually(a) | Formula::Globally(a) | Formula::AllPaths(a)
        | Formula::SomePath(a) => pnf_weight(*a) + 1,
        Formula::And(a, b) | Formula::Or(a, b) | Formula::Implies(a, b) | Formula::LessEqual(a, b)
        | Formula::GreaterEqual(a, b) | Formula::Greater(a, b) | Formula::Less(a, b)
        | Formula::Until(a, b) | Formula::WeakUntil(a, b) | Formula::Release(a, b)
        | Formula::MightyRelease(a, b) => pnf_weight(*a) + pnf_weight(*b) + 1,
        _ => 1,
    }
}

pub open spec fn not_rank(f: Formula) -> nat {
    if f is Not {
        2
    } else {
        0
    }
}

pub open spec fn fnot(f: Formula) -> Formula {
    Formula::Not(Box::new(f))
}

/// Negations pushed inwards through temporal and boolean operators, by their duals; a double
/// negation is dropped and `!(l -> r)` becomes `l & !r`. A negation in front of an atom or a
/// path quantifier stays.
pub open spec fn spec_push_inwards(f: Formula) -> Formula
    decreases pnf_weight(f), not_rank(f),
{
    match f {
        Formula::Not(g) => match *g {
            Formula::Next(x) => {
                proof {
                    assert(pnf_weight(Formula::Next(x)) == pnf_weight(*x) + 1);
                    assert(pnf_weight(fnot(*x)) == 2 * pnf_weight(*x) + 1);
                }
                spec_push_inwards(Formula::Next(Box::new(fnot(*x))))
            },
            Formula::Globally(x) => {
                proof {
                    assert(pnf_weight(Formula::Globally(x)) == pnf_weight(*x) + 1);
                    assert(pnf_weight(fnot(*x)) == 2 * pnf_weight(*x) + 1);
                }
                spec_push_inwards(Formula::Eventually(Box::new(fnot(*x))))
            },
            Formula::Eventually(x) => {
                proof {
                    assert(pnf_weight(Formula::Eventually(x)) == pnf_weight(*x) + 1);
                    assert(pnf_weight(fnot(*x)) == 2 * pnf_weight(*x) + 1);
                }
                spec_push_inwards(Formula::Globally(Box::new(fnot(*x))))
            },
            Formula::Until(l, r) => {
                proof {
                    assert(pnf_weight(Formula::Until(l, r)) == pnf_weight(*l) + pnf_weight(*r) + 1);
                    assert(pnf_weight(fnot(*l)) == 2 * pnf_weight(*l) + 1);
                    assert(pnf_weight(fnot(*r)) == 2 * pnf_weight(*r) + 1);
                }
                spec_push_inwards(Formula::Release(Box::new(fnot(*l)), Box::new(fnot(*r))))
            },
            Formula::Release(l, r) => {
                proof {
                    assert(pnf_weight(Formula::Release(l, r)) == pnf_weight(*l) + pnf_weight(*r) + 1);
                    assert(pnf_weight(fnot(*l)) == 2 * pnf_weight(*l) + 1);
                    assert(pnf_weight(fnot(*r)) == 2 * pnf_weight(*r) + 1);
                }
                spec_push_inwards(Formula::Until(Box::new(fnot(*l)), Box::new(fnot(*r))))
            },
            Formula::WeakUntil(l, r) => {
                proof {
                    assert(pnf_weight(Formula::WeakUntil(l, r)) == pnf_weight(*l) + pnf_weight(*r) + 1);
                    assert(pnf_weight(fnot(*l)) == 2 * pnf_weight(*l) + 1);
                    assert(pnf_weight(fnot(*r)) == 2 * pnf_weight(*r) + 1);
                }
                spec_push_inwards(Formula::MightyRelease(Box::new(fnot(*l)), Box::new(fnot(*r))))
            },
            Formula::MightyRelease(l, r) => {
                proof {
                    assert(pnf_weight(Formula::MightyRelease(l, r)) == pnf_weight(*l) + pnf_weight(*r) + 1);
                    assert(pnf_weight(fnot(*l)) == 2 * pnf_weight(*l) + 1);
                    assert(pnf_weight(fnot(*r)) == 2 * pnf_weight(*r) + 1);
                }
                spec_push_inwards(Formula::WeakUntil(Box::new(fnot(*l)), Box::new(fnot(*r))))
            },
            Formula::And(l, r) => {
                proof {
                    assert(pnf_weight(Formula::And(l, r)) == pnf_weight(*l) + pnf_weight(*r) + 1);
                    assert(pnf_weight(fnot(*l)) == 2 * pnf_weight(*l) + 1);
                    assert(pnf_weight(fnot(*r)) == 2 * pnf_weight(*r) + 1);
                }
                spec_push_inwards(Formula::Or(Box::new(fnot(*l)), Box::new(fnot(*r))))
            },
            Formula::Or(l, r) => {
                proof {
                    assert(pnf_weight(Formula::Or(l, r)) == pnf_weight(*l) + pnf_weight(*r) + 1);
                    assert(pnf_weight(fnot(*l)) == 2 * pnf_weight(*l) + 1);
                    assert(pnf_weight(fnot(*r)) == 2 * pnf_weight(*r) + 1);
                }
                spec_push_inwards(Formula::And(Box::new(fnot(*l)), Box::new(fnot(*r))))
            },
            Formula::Not(x) => {
                proof {
                    assert(pnf_weight(Formula::Not(x)) == 2 * pnf_weight(*x) + 1);
                }
                spec_push_inwards(*x)
            },
            Formula::Implies(l, r) => {
                proof {
                    assert(pnf_weight(Formula::Implies(l, r)) == pnf_weight(*l) + pnf_weight(*r) + 1);
                    assert(pnf_weight(fnot(*r)) == 2 * pnf_weight(*r) + 1);
                }
                spec_push_inwards(Formula::And(l, Box::new(fnot(*r))))
            },
            _ => f,
        },
        Formula::And(l, r) => Formula::And(
            Box::new(spec_push_inwards(*l)),
            Box::new(spec_push_inwards(*r)),
        ),
        Formula::Or(l, r) => Formula::Or(
            Box::new(spec_push_inwards(*l)),
            Box::new(spec_push_inwards(*r)),
        ),
        Formula::Until(l, r) => Formula::Until(
            Box::new(spec_push_inwards(*l)),
            Box::new(spec_push_inwards(*r)),
        ),
        Formula::Release(l, r) => Formula::Release(
            Box::new(spec_push_inwards(*l)),
            Box::new(spec_push_inwards(*r)),
        ),
        Formula::Implies(l, r) => Formula::Implies(
            Box::new(spec_push_inwards(*l)),
            Box::new(spec_push_inwards(*r)),
        ),
        Formula::WeakUntil(l, r) => Formula::WeakUntil(
            Box::new(spec_push_inwards(*l)),
            Box::new(spec_push_inwards(*r)),
        ),
        Formula::MightyRelease(l, r) => Formula::MightyRelease(
            Box::new(spec_push_inwards(*l)),
            Box::new(spec_push_inwards(*r)),
        ),
        Formula::LessEqual(l, r) => Formula::LessEqual(
            Box::new(spec_push_inwards(*l)),
            Box::new(spec_push_inwards(*r)),
        ),
        Formula::GreaterEqual(l, r) => Formula::GreaterEqual(
            Box::new(spec_push_inwards(*l)),
            Box::new(spec_push_inwards(*r)),
        ),
        Formula::Greater(l, r) => Formula::Greater(
            Box::new(spec_push_inwards(*l)),
            Box::new(spec_push_inwards(*r)),
        ),
        Formula::Less(l, r) => Formula::Less(
            Box::new(spec_push_inwards(*l)),
            Box::new(spec_push_inwards(*r)),
        ),
        Formula::Next(x) => Formula::Next(Box::new(spec_push_inwards(*x))),
        Formula::Globally(x) => Formula::Globally(Box::new(spec_push_inwards(*x))),
        Formula::Eventually(x) => Formula::Eventually(Box::new(spec_push_inwards(*x))),
        Formula::AllPaths(x) => Formula::AllPaths(Box::new(spec_push_inwards(*x))),
        Formula::SomePath(x) => Formula::SomePath(Box::new(spec_push_inwards(*x))),
        _ => f,
    }
}

/// Every `F`, `G`, `W` and `M` rewritten with `U` and `R`, at every depth outside the
/// operands of comparisons: `F x = true U x`, `G x = false R x`, `l W r = r R (l | r)`,
/// `l M r = r U (l & r)`.
pub open spec fn spec_eliminate_all(f: Formula) -> Formula
    decreases f,
{
    match f {
        Formula::Eventually(x) => Formula::Until(Box::new(Formula::True), Box::new(spec_eliminate_all(*x))),
        Formula::Globally(x) => Formula::Release(Box::new(Formula::False), Box::new(spec_eliminate_all(*x))),
        Formula::WeakUntil(l, r) => Formula::Release(
            Box::new(spec_eliminate_all(*r)),
            Box::new(Formula::Or(Box::new(spec_eliminate_all(*l)), Box::new(spec_eliminate_all(*r)))),
        ),
        Formula::MightyRelease(l, r) => Formula::Until(
            Box::new(spec_eliminate_all(*r)),
            Box::new(Formula::And(Box::new(spec_eliminate_all(*l)), Box::new(spec_eliminate_all(*r)))),
        ),
        Formula::Not(x) => Formula::Not(Box::new(spec_eliminate_all(*x))),
        Formula::Next(x) => Formula::Next(Box::new(spec_eliminate_all(*x))),
        Formula::AllPaths(x) => Formula::AllPaths(Box::new(spec_eliminate_all(*x))),
        Formula::SomePath(x) => Formula::SomePath(Box::new(spec_eliminate_all(*x))),
        Formula::And(l, r) => Formula::And(Box::new(spec_eliminate_all(*l)), Box::new(spec_eliminate_all(*r))),
        Formula::Or(l, r) => Formula::Or(Box::new(spec_eliminate_all(*l)), Box::new(spec_eliminate_all(*r))),
        Formula::Implies(l, r) => Formula::Implies(Box::new(spec_eliminate_all(*l)), Box::new(spec_eliminate_all(*r))),
        Formula::Until(l, r) => Formula::Until(Box::new(spec_eliminate_all(*l)), Box::new(spec_eliminate_all(*r))),
        Formula::Release(l, r) => Formula::Release(Box::new(spec_eliminate_all(*l)), Box::new(spec_eliminate_all(*r))),
        _ => f,
    }
}

/// The outermost `F`, `G`, `W` or `M` rewritten with `U` and `R`:
/// `F x = true U x`, `G x = false R x`, `l W r = r R (l | r)`, `l M r = r U (l & r)`.
pub open spec fn spec_eliminate(f: Formula) -> Formula {
    match f {
        Formula::Eventually(x) => Formula::Until(Box::new(Formula::True), x),
        Formula::Globally(x) => Formula::Release(Box::new(Formula::False), x),
        Formula::WeakUntil(l, r) => Formula::Release(r, Box::new(Formula::Or(l, r))),
        Formula::MightyRelease(l, r) => Formula::Until(r, Box::new(Formula::And(l, r))),
        _ => f,
    }
}

/// At the top of the formula: a run of `G` (or of `F`) collapsed into one, and `X`
/// distributed over an `|`, `&` or `U` directly below it.
pub open spec fn spec_simplify(f: Formula) -> Formula
    decreases f,
{
    match f {
        Formula::Globally(a) => match *a {
            Formula::Globally(b) => spec_simplify(Formula::Globally(b)),
            _ => f,
        },
        Formula::Eventually(a) => match *a {
            Formula::Eventually(b) => spec_simplify(Formula::Eventually(b)),
            _ => f,
        },
        Formula::Next(a) => match *a {
            Formula::Or(l, r) => Formula::Or(
                Box::new(Formula::Next(l)),
                Box::new(Formula::Next(r)),
            ),
            Formula::And(l, r) => Formula::And(
                Box::new(Formula::Next(l)),
                Box::new(Formula::Next(r)),
            ),
            Formula::Until(l, r) => Formula::Until(
                Box::new(Formula::Next(l)),
                Box::new(Formula::Next(r)),
            ),
            _ => f,
        },
        _ => f,
    }
}

/// The positive normal form computed by `to_pnf`.
pub open spec fn spec_to_pnf(f: Formula) -> Formula {
    spec_simplify(spec_eliminate(spec_simplify(spec_push_inwards(spec_simplify(f)))))
}



/// Every comparison in `f` compares operands that pushing negations leaves as they are. A
/// comparison is an atomic proposition, named by its whole syntax, so rewriting inside one
/// would change which proposition it is.
pub open spec fn comparisons_fixed(f: Formula) -> bool
    decreases f,
{
    match f {
        Formula::LessEqual(a, b) | Formula::GreaterEqual(a, b) | Formula::Greater(a, b)
        | Formula::Less(a, b) => spec_push_inwards(*a) == *a && spec_push_inwards(*b) == *b,
        Formula::Not(a) | Formula::Next(a) | Formula::Eventually(a) | Formula::Globally(a)
        | Formula::AllPaths(a) | Formula::SomePath(a) => comparisons_fixed(*a),
        Formula::And(a, b) | Formula::Or(a, b) | Formula::Implies(a, b) | Formula::Until(a, b)
        | Formula::WeakUntil(a, b) | Formula::Release(a, b) | Formula::MightyRelease(a, b) =>
            comparisons_fixed(*a) && comparisons_fixed(*b),
        _ => true,
    }
}

proof fn lemma_equivalent_trans(f: Formula, g: Formula, h: Formula)
    requires
        equivalent(f, g),
        equivalent(g, h),
    ensures
        equivalent(f, h),
{
    assert forall|w: spec_fn(nat, Formula) -> bool| #[trigger] holds(f, w) == holds(h, w) by {
        assert(holds(f, w) == holds(g, w));
    }
}

/// Collapsing `G`/`F` runs and distributing `X` keeps the meaning of a formula.
pub proof fn lemma_simplify_equivalent(f: Formula)
    ensures
        equivalent(spec_simplify(f), f),
        comparisons_fixed(f) ==> comparisons_fixed(spec_simplify(f)),
    decreases f,
{
    match f {
        Formula::Globally(a) => match *a {
            Formula::Globally(b) => {
                lemma_simplify_equivalent(Formula::Globally(b));
                assert(comparisons_fixed(f) == comparisons_fixed(Formula::Globally(b)));
                assert forall|w: spec_fn(nat, Formula) -> bool| #[trigger]
                    holds(spec_simplify(f), w) == holds(f, w) by {
                    lemma_globally_globally(holds(*b, w));
                    assert(holds(spec_simplify(f), w) == holds(Formula::Globally(b), w));
                }
            },
            _ => {},
        },
        Formula::Eventually(a) => match *a {
            Formula::Eventually(b) => {
                lemma_simplify_equivalent(Formula::Eventually(b));
                assert(comparisons_fixed(f) == comparisons_fixed(Formula::Eventually(b)));
                assert forall|w: spec_fn(nat, Formula) -> bool| #[trigger]
                    holds(spec_simplify(f), w) == holds(f, w) by {
                    lemma_eventually_eventually(holds(*b, w));
                    assert(holds(spec_simplify(f), w) == holds(Formula::Eventually(b), w));
                }
            },
            _ => {},
        },
        Formula::Next(a) => match *a {
            Formula::Until(l, r) => {
                assert(comparisons_fixed(*a) == (comparisons_fixed(*l) && comparisons_fixed(*r)));
                assert(comparisons_fixed(Formula::Next(l)) == comparisons_fixed(*l));
                assert(comparisons_fixed(Formula::Next(r)) == comparisons_fixed(*r));
                assert forall|w: spec_fn(nat, Formula) -> bool| #[trigger]
                    holds(spec_simplify(f), w) == holds(f, w) by {
                    lemma_next_until(holds(*l, w), holds(*r, w));
                    assert(holds(*a, w) == until(holds(*l, w), holds(*r, w)));
                    assert(holds(Formula::Next(l), w) == next(holds(*l, w)));
                    assert(holds(Formula::Next(r), w) == next(holds(*r, w)));
                }
            },
            Formula::Or(l, r) => {
                assert(comparisons_fixed(*a) == (comparisons_fixed(*l) && comparisons_fixed(*r)));
                assert(comparisons_fixed(Formula::Next(l)) == comparisons_fixed(*l));
                assert(comparisons_fixed(Formula::Next(r)) == comparisons_fixed(*r));
                assert forall|w: spec_fn(nat, Formula) -> bool| #[trigger]
                    holds(spec_simplify(f), w) == holds(f, w) by {
                    let p = holds(*l, w);
                    let q = holds(*r, w);
                    assert(holds(*a, w) == por(p, q));
                    assert(holds(Formula::Next(l), w) == next(p));
                    assert(holds(Formula::Next(r), w) == next(q));
                    assert(next(por(p, q)) =~= por(next(p), next(q)));
                }
            },
            Formula::And(l, r) => {
                assert(comparisons_fixed(*a) == (comparisons_fixed(*l) && comparisons_fixed(*r)));
                assert(comparisons_fixed(Formula::Next(l)) == comparisons_fixed(*l));
                assert(comparisons_fixed(Formula::Next(r)) == comparisons_fixed(*r));
                assert forall|w: spec_fn(nat, Formula) -> bool| #[trigger]
                    holds(spec_simplify(f), w) == holds(f, w) by {
                    let p = holds(*l, w);
                    let q = holds(*r, w);
                    assert(holds(*a, w) == pand(p, q));
                    assert(holds(Formula::Next(l), w) == next(p));
                    assert(holds(Formula::Next(r), w) == next(q));
                    assert(next(pand(p, q)) =~= pand(next(p), next(q)));
                }
            },
            _ => {},
        },
        _ => {},
    }
}

/// Rewriting every `F`, `G`, `W` and `M` keeps the meaning of a formula.
pub proof fn lemma_eliminate_all_equivalent(f: Formula)
    ensures
        equivalent(spec_eliminate_all(f), f),
    decreases f,
{
    match f {
        Formula::Eventually(x) => {
            lemma_eliminate_all_equivalent(*x);
            assert forall|w: spec_fn(nat, Formula) -> bool| #[trigger]
                holds(spec_eliminate_all(f), w) == holds(f, w) by {
                let p = holds(*x, w);
                assert(holds(spec_eliminate_all(*x), w) == p);
                let t = holds(Formula::True, w);
                assert forall|i: nat| #[trigger] until(t, p)(i) == eventually(p)(i) by {
                    if eventually(p)(i) {
                        let j = choose|j: nat| i <= j && #[trigger] p(j);
                        assert(forall|k: nat| i <= k < j ==> #[trigger] t(k));
                    }
                }
                assert(until(t, p) =~= eventually(p));
            }
        },
        Formula::Globally(x) => {
            lemma_eliminate_all_equivalent(*x);
            assert forall|w: spec_fn(nat, Formula) -> bool| #[trigger]
                holds(spec_eliminate_all(f), w) == holds(f, w) by {
                let p = holds(*x, w);
                assert(holds(spec_eliminate_all(*x), w) == p);
                let z = holds(Formula::False, w);
                assert(release(z, p) =~= globally(p));
            }
        },
        Formula::WeakUntil(l, r) => {
            lemma_eliminate_all_equivalent(*l);
            lemma_eliminate_all_equivalent(*r);
            assert forall|w: spec_fn(nat, Formula) -> bool| #[trigger]
                holds(spec_eliminate_all(f), w) == holds(f, w) by {
                assert(holds(spec_eliminate_all(*l), w) == holds(*l, w));
                assert(holds(spec_eliminate_all(*r), w) == holds(*r, w));
                lemma_weak_until_as_release(holds(*l, w), holds(*r, w));
                assert(holds(Formula::Or(Box::new(spec_eliminate_all(*l)), Box::new(spec_eliminate_all(*r))), w)
                    == por(holds(*l, w), holds(*r, w)));
                assert(holds(Formula::Or(l, r), w) == por(holds(*l, w), holds(*r, w)));
            }
        },
        Formula::MightyRelease(l, r) => {
            lemma_eliminate_all_equivalent(*l);
            lemma_eliminate_all_equivalent(*r);
            assert forall|w: spec_fn(nat, Formula) -> bool| #[trigger]
                holds(spec_eliminate_all(f), w) == holds(f, w) by {
                assert(holds(spec_eliminate_all(*l), w) == holds(*l, w));
                assert(holds(spec_eliminate_all(*r), w) == holds(*r, w));
                lemma_mighty_release_as_until(holds(*l, w), holds(*r, w));
                assert(holds(Formula::And(Box::new(spec_eliminate_all(*l)), Box::new(spec_eliminate_all(*r))), w)
                    == pand(holds(*l, w), holds(*r, w)));
                assert(holds(Formula::And(l, r), w) == pand(holds(*l, w), holds(*r, w)));
            }
        },
        Formula::Not(x) | Formula::Next(x) | Formula::AllPaths(x) | Formula::SomePath(x) => {
            lemma_eliminate_all_equivalent(*x);
            assert forall|w: spec_fn(nat, Formula) -> bool| #[trigger]
                holds(spec_eliminate_all(f), w) == holds(f, w) by {
                assert(holds(spec_eliminate_all(*x), w) == holds(*x, w));
            }
        },
        Formula::And(l, r) | Formula::Or(l, r) | Formula::Implies(l, r) | Formula::Until(l, r)
        | Formula::Release(l, r) => {
            lemma_eliminate_all_equivalent(*l);
            lemma_eliminate_all_equivalent(*r);
            assert forall|w: spec_fn(nat, Formula) -> bool| #[trigger]
                holds(spec_eliminate_all(f), w) == holds(f, w) by {
                assert(holds(spec_eliminate_all(*l), w) == holds(*l, w));
                assert(holds(spec_eliminate_all(*r), w) == holds(*r, w));
            }
        },
        _ => {},
    }
}

/// Rewriting an outermost `F`, `G`, `W` or `M` keeps the meaning of a formula.
pub proof fn lemma_eliminate_equivalent(f: Formula)
    ensures
        equivalent(spec_eliminate(f), f),
{
    match f {
        Formula::Eventually(x) => {
            assert forall|w: spec_fn(nat, Formula) -> bool| #[trigger]
                holds(spec_eliminate(f), w) == holds(f, w) by {
                let p = holds(*x, w);
                let t = holds(Formula::True, w);
                assert forall|i: nat| #[trigger] until(t, p)(i) == eventually(p)(i) by {
                    if eventually(p)(i) {
                        let j = choose|j: nat| i <= j && #[trigger] p(j);
                        assert(forall|k: nat| i <= k < j ==> #[trigger] t(k));
                    }
                }
                assert(until(t, p) =~= eventually(p));
            }
        },
        Formula::Globally(x) => {
            assert forall|w: spec_fn(nat, Formula) -> bool| #[trigger]
                holds(spec_eliminate(f), w) == holds(f, w) by {
                let p = holds(*x, w);
                let z = holds(Formula::False, w);
                assert(release(z, p) =~= globally(p));
            }
        },
        Formula::WeakUntil(l, r) => {
            assert forall|w: spec_fn(nat, Formula) -> bool| #[trigger]
                holds(spec_eliminate(f), w) == holds(f, w) by {
                lemma_weak_until_as_release(holds(*l, w), holds(*r, w));
                assert(holds(Formula::Or(l, r), w) == por(holds(*l, w), holds(*r, w)));
            }
        },
        Formula::MightyRelease(l, r) => {
            assert forall|w: spec_fn(nat, Formula) -> bool| #[trigger]
                holds(spec_eliminate(f), w) == holds(f, w) by {
                lemma_mighty_release_as_until(holds(*l, w), holds(*r, w));
                assert(holds(Formula::And(l, r), w) == pand(holds(*l, w), holds(*r, w)));
            }
        },
        _ => {},
    }
}

proof fn lemma_not_globally(p: spec_fn(nat) -> bool)
    ensures
        pnot(globally(p)) == eventually(pnot(p)),
{
    assert forall|i: nat| #[trigger] pnot(globally(p))(i) == eventually(pnot(p))(i) by {
        if pnot(globally(p))(i) {
            let j = choose|j: nat| i <= j && !#[trigger] p(j);
            assert(pnot(p)(j));
        }
    }
    assert(pnot(globally(p)) =~= eventually(pnot(p)));
}

proof fn lemma_not_eventually(p: spec_fn(nat) -> bool)
    ensures
        pnot(eventually(p)) == globally(pnot(p)),
{
    assert forall|i: nat| #[trigger] pnot(eventually(p))(i) == globally(pnot(p))(i) by {
        if eventually(p)(i) {
            let j = choose|j: nat| i <= j && #[trigger] p(j);
            assert(!pnot(p)(j));
        }
    }
    assert(pnot(eventually(p)) =~= globally(pnot(p)));
}

proof fn lemma_not_until(p: spec_fn(nat) -> bool, q: spec_fn(nat) -> bool)
    ensures
        pnot(until(p, q)) == release(pnot(p), pnot(q)),
{
    assert forall|i: nat| #[trigger] pnot(until(p, q))(i) == release(pnot(p), pnot(q))(i) by {
        if until(p, q)(i) {
            let k = choose|k: nat|
                i <= k && #[trigger] q(k) && forall|j: nat| i <= j < k ==> #[trigger] p(j);
            assert(!pnot(q)(k));
            assert(!(exists|j: nat| i <= j < k && #[trigger] pnot(p)(j)));
            assert(!release(pnot(p), pnot(q))(i));
        } else {
            assert forall|k: nat| i <= k implies #[trigger] pnot(q)(k) || exists|j: nat|
                i <= j < k && #[trigger] pnot(p)(j) by {
                if q(k) {
                    assert(!(forall|j: nat| i <= j < k ==> #[trigger] p(j)));
                    let j = choose|j: nat| !(i <= j < k ==> #[trigger] p(j));
                    assert(pnot(p)(j));
                }
            }
        }
    }
    assert(pnot(until(p, q)) =~= release(pnot(p), pnot(q)));
}

proof fn lemma_not_release(p: spec_fn(nat) -> bool, q: spec_fn(nat) -> bool)
    ensures
        pnot(release(p, q)) == until(pnot(p), pnot(q)),
{
    lemma_not_until(pnot(p), pnot(q));
    assert(pnot(pnot(p)) =~= p);
    assert(pnot(pnot(q)) =~= q);
    assert(pnot(pnot(release(p, q))) =~= release(p, q));
    assert(pnot(pnot(until(pnot(p), pnot(q)))) =~= until(pnot(p), pnot(q)));
}

/// Pushing negations inwards keeps the meaning of a formula whose comparisons it leaves alone.
pub proof fn lemma_push_inwards_equivalent(f: Formula)
    requires
        comparisons_fixed(f),
    ensures
        equivalent(spec_push_inwards(f), f),
    decreases pnf_weight(f), not_rank(f),
{
    match f {
        Formula::Not(g) => {
            let pf = spec_push_inwards(f);
            match *g {
                Formula::Next(x) => {
                    let h = Formula::Next(Box::new(fnot(*x)));
                    assert(pnf_weight(Formula::Next(x)) == pnf_weight(*x) + 1);
                    assert(pnf_weight(fnot(*x)) == 2 * pnf_weight(*x) + 1);
                    assert(comparisons_fixed(Formula::Next(x)) == comparisons_fixed(*x));
                    assert(comparisons_fixed(fnot(*x)) == comparisons_fixed(*x));
                    lemma_push_inwards_equivalent(h);
                    assert forall|w: spec_fn(nat, Formula) -> bool| #[trigger]
                        holds(pf, w) == holds(f, w) by {
                        assert(holds(pf, w) == holds(h, w));
                        assert(holds(*g, w) == next(holds(*x, w)));
                        assert(holds(fnot(*x), w) == pnot(holds(*x, w)));
                        assert(next(pnot(holds(*x, w))) =~= pnot(next(holds(*x, w))));
                    }
                },
                Formula::Globally(x) => {
                    let h = Formula::Eventually(Box::new(fnot(*x)));
                    assert(pnf_weight(Formula::Globally(x)) == pnf_weight(*x) + 1);
                    assert(pnf_weight(fnot(*x)) == 2 * pnf_weight(*x) + 1);
                    assert(comparisons_fixed(Formula::Globally(x)) == comparisons_fixed(*x));
                    assert(comparisons_fixed(fnot(*x)) == comparisons_fixed(*x));
                    lemma_push_inwards_equivalent(h);
                    assert forall|w: spec_fn(nat, Formula) -> bool| #[trigger]
                        holds(pf, w) == holds(f, w) by {
                        assert(holds(pf, w) == holds(h, w));
                        lemma_not_globally(holds(*x, w));
                        assert(holds(*g, w) == globally(holds(*x, w)));
                        assert(holds(fnot(*x), w) == pnot(holds(*x, w)));
                    }
                },
                Formula::Eventually(x) => {
                    let h = Formula::Globally(Box::new(fnot(*x)));
                    assert(pnf_weight(Formula::Eventually(x)) == pnf_weight(*x) + 1);
                    assert(pnf_weight(fnot(*x)) == 2 * pnf_weight(*x) + 1);
                    assert(comparisons_fixed(Formula::Eventually(x)) == comparisons_fixed(*x));
                    assert(comparisons_fixed(fnot(*x)) == comparisons_fixed(*x));
                    lemma_push_inwards_equivalent(h);
                    assert forall|w: spec_fn(nat, Formula) -> bool| #[trigger]
                        holds(pf, w) == holds(f, w) by {
                        assert(holds(pf, w) == holds(h, w));
                        lemma_not_eventually(holds(*x, w));
                        assert(holds(*g, w) == eventually(holds(*x, w)));
                        assert(holds(fnot(*x), w) == pnot(holds(*x, w)));
                    }
                },
                Formula::Until(l, r) => {
                    let h = Formula::Release(Box::new(fnot(*l)), Box::new(fnot(*r)));
                    assert(pnf_weight(Formula::Until(l, r)) == pnf_weight(*l) + pnf_weight(*r) + 1);
                    assert(pnf_weight(fnot(*l)) == 2 * pnf_weight(*l) + 1);
                    assert(pnf_weight(fnot(*r)) == 2 * pnf_weight(*r) + 1);
                    assert(comparisons_fixed(Formula::Until(l, r)) == (comparisons_fixed(*l)
                        && comparisons_fixed(*r)));
                    assert(comparisons_fixed(fnot(*l)) == comparisons_fixed(*l));
                    assert(comparisons_fixed(fnot(*r)) == comparisons_fixed(*r));
                    lemma_push_inwards_equivalent(h);
                    assert forall|w: spec_fn(nat, Formula) -> bool| #[trigger]
                        holds(pf, w) == holds(f, w) by {
                        assert(holds(pf, w) == holds(h, w));
                        lemma_not_until(holds(*l, w), holds(*r, w));
                        assert(holds(*g, w) == until(holds(*l, w), holds(*r, w)));
                        assert(holds(fnot(*l), w) == pnot(holds(*l, w)));
                        assert(holds(fnot(*r), w) == pnot(holds(*r, w)));
                    }
                },
                Formula::Release(l, r) => {
                    let h = Formula::Until(Box::new(fnot(*l)), Box::new(fnot(*r)));
                    assert(pnf_weight(Formula::Release(l, r)) == pnf_weight(*l) + pnf_weight(*r)
                        + 1);
                    assert(pnf_weight(fnot(*l)) == 2 * pnf_weight(*l) + 1);
                    assert(pnf_weight(fnot(*r)) == 2 * pnf_weight(*r) + 1);
                    assert(comparisons_fixed(Formula::Release(l, r)) == (comparisons_fixed(*l)
                        && comparisons_fixed(*r)));
                    assert(comparisons_fixed(fnot(*l)) == comparisons_fixed(*l));
                    assert(comparisons_fixed(fnot(*r)) == comparisons_fixed(*r));
                    lemma_push_inwards_equivalent(h);
                    assert forall|w: spec_fn(nat, Formula) -> bool| #[trigger]
                        holds(pf, w) == holds(f, w) by {
                        assert(holds(pf, w) == holds(h, w));
                        lemma_not_release(holds(*l, w), holds(*r, w));
                        assert(holds(*g, w) == release(holds(*l, w), holds(*r, w)));
                        assert(holds(fnot(*l), w) == pnot(holds(*l, w)));
                        assert(holds(fnot(*r), w) == pnot(holds(*r, w)));
                    }
                },
                Formula::WeakUntil(l, r) => {
                    let h = Formula::MightyRelease(Box::new(fnot(*l)), Box::new(fnot(*r)));
                    assert(pnf_weight(Formula::WeakUntil(l, r)) == pnf_weight(*l) + pnf_weight(*r)
                        + 1);
                    assert(pnf_weight(fnot(*l)) == 2 * pnf_weight(*l) + 1);
                    assert(pnf_weight(fnot(*r)) == 2 * pnf_weight(*r) + 1);
                    assert(comparisons_fixed(Formula::WeakUntil(l, r)) == (comparisons_fixed(*l)
                        && comparisons_fixed(*r)));
                    assert(comparisons_fixed(fnot(*l)) == comparisons_fixed(*l));
                    assert(comparisons_fixed(fnot(*r)) == comparisons_fixed(*r));
                    lemma_push_inwards_equivalent(h);
                    assert forall|w: spec_fn(nat, Formula) -> bool| #[trigger]
                        holds(pf, w) == holds(f, w) by {
                        assert(holds(pf, w) == holds(h, w));
                        lemma_not_weak_until(holds(*l, w), holds(*r, w));
                        assert(holds(*g, w) == weak_until(holds(*l, w), holds(*r, w)));
                        assert(holds(fnot(*l), w) == pnot(holds(*l, w)));
                        assert(holds(fnot(*r), w) == pnot(holds(*r, w)));
                    }
                },
                Formula::MightyRelease(l, r) => {
                    let h = Formula::WeakUntil(Box::new(fnot(*l)), Box::new(fnot(*r)));
                    assert(pnf_weight(Formula::MightyRelease(l, r)) == pnf_weight(*l) + pnf_weight(
                        *r,
                    ) + 1);
                    assert(pnf_weight(fnot(*l)) == 2 * pnf_weight(*l) + 1);
                    assert(pnf_weight(fnot(*r)) == 2 * pnf_weight(*r) + 1);
                    assert(comparisons_fixed(Formula::MightyRelease(l, r)) == (comparisons_fixed(*l)
                        && comparisons_fixed(*r)));
                    assert(comparisons_fixed(fnot(*l)) == comparisons_fixed(*l));
                    assert(comparisons_fixed(fnot(*r)) == comparisons_fixed(*r));
                    lemma_push_inwards_equivalent(h);
                    assert forall|w: spec_fn(nat, Formula) -> bool| #[trigger]
                        holds(pf, w) == holds(f, w) by {
                        assert(holds(pf, w) == holds(h, w));
                        lemma_not_mighty_release(holds(*l, w), holds(*r, w));
                        assert(holds(*g, w) == mighty_release(holds(*l, w), holds(*r, w)));
                        assert(holds(fnot(*l), w) == pnot(holds(*l, w)));
                        assert(holds(fnot(*r), w) == pnot(holds(*r, w)));
                    }
                },
                Formula::And(l, r) => {
                    let h = Formula::Or(Box::new(fnot(*l)), Box::new(fnot(*r)));
                    assert(pnf_weight(Formula::And(l, r)) == pnf_weight(*l) + pnf_weight(*r) + 1);
                    assert(pnf_weight(fnot(*l)) == 2 * pnf_weight(*l) + 1);
                    assert(pnf_weight(fnot(*r)) == 2 * pnf_weight(*r) + 1);
                    assert(comparisons_fixed(Formula::And(l, r)) == (comparisons_fixed(*l)
                        && comparisons_fixed(*r)));
                    assert(comparisons_fixed(fnot(*l)) == comparisons_fixed(*l));
                    assert(comparisons_fixed(fnot(*r)) == comparisons_fixed(*r));
                    lemma_push_inwards_equivalent(h);
                    assert forall|w: spec_fn(nat, Formula) -> bool| #[trigger]
                        holds(pf, w) == holds(f, w) by {
                        assert(holds(pf, w) == holds(h, w));
                        assert(holds(*g, w) == pand(holds(*l, w), holds(*r, w)));
                        assert(holds(fnot(*l), w) == pnot(holds(*l, w)));
                        assert(holds(fnot(*r), w) == pnot(holds(*r, w)));
                        assert(por(pnot(holds(*l, w)), pnot(holds(*r, w))) =~= pnot(
                            pand(holds(*l, w), holds(*r, w)),
                        ));
                    }
                },
                Formula::Or(l, r) => {
                    let h = Formula::And(Box::new(fnot(*l)), Box::new(fnot(*r)));
                    assert(pnf_weight(Formula::Or(l, r)) == pnf_weight(*l) + pnf_weight(*r) + 1);
                    assert(pnf_weight(fnot(*l)) == 2 * pnf_weight(*l) + 1);
                    assert(pnf_weight(fnot(*r)) == 2 * pnf_weight(*r) + 1);
                    assert(comparisons_fixed(Formula::Or(l, r)) == (comparisons_fixed(*l)
                        && comparisons_fixed(*r)));
                    assert(comparisons_fixed(fnot(*l)) == comparisons_fixed(*l));
                    assert(comparisons_fixed(fnot(*r)) == comparisons_fixed(*r));
                    lemma_push_inwards_equivalent(h);
                    assert forall|w: spec_fn(nat, Formula) -> bool| #[trigger]
                        holds(pf, w) == holds(f, w) by {
                        assert(holds(pf, w) == holds(h, w));
                        assert(holds(*g, w) == por(holds(*l, w), holds(*r, w)));
                        assert(holds(fnot(*l), w) == pnot(holds(*l, w)));
                        assert(holds(fnot(*r), w) == pnot(holds(*r, w)));
                        assert(pand(pnot(holds(*l, w)), pnot(holds(*r, w))) =~= pnot(
                            por(holds(*l, w), holds(*r, w)),
                        ));
                    }
                },
                Formula::Not(x) => {
                    assert(pnf_weight(*g) == 2 * pnf_weight(*x) + 1);
                    assert(comparisons_fixed(*g) == comparisons_fixed(*x));
                    lemma_push_inwards_equivalent(*x);
                    assert forall|w: spec_fn(nat, Formula) -> bool| #[trigger]
                        holds(pf, w) == holds(f, w) by {
                        assert(holds(pf, w) == holds(*x, w));
                        assert(holds(*g, w) == pnot(holds(*x, w)));
                        assert(pnot(pnot(holds(*x, w))) =~= holds(*x, w));
                    }
                },
                Formula::Implies(l, r) => {
                    let h = Formula::And(l, Box::new(fnot(*r)));
                    assert(pnf_weight(Formula::Implies(l, r)) == pnf_weight(*l) + pnf_weight(*r) + 1);
                    assert(pnf_weight(fnot(*r)) == 2 * pnf_weight(*r) + 1);
                    assert(comparisons_fixed(Formula::Implies(l, r)) == (comparisons_fixed(*l)
                        && comparisons_fixed(*r)));
                    assert(comparisons_fixed(fnot(*r)) == comparisons_fixed(*r));
                    lemma_push_inwards_equivalent(h);
                    assert forall|w: spec_fn(nat, Formula) -> bool| #[trigger]
                        holds(pf, w) == holds(f, w) by {
                        assert(holds(pf, w) == holds(h, w));
                        assert(holds(*g, w) == pimplies(holds(*l, w), holds(*r, w)));
                        assert(holds(fnot(*r), w) == pnot(holds(*r, w)));
                        assert(pand(holds(*l, w), pnot(holds(*r, w))) =~= pnot(
                            pimplies(holds(*l, w), holds(*r, w)),
                        ));
                    }
                },
                _ => {},
            }
        },
        Formula::And(l, r) | Formula::Or(l, r) | Formula::Until(l, r) | Formula::Release(l, r)
        | Formula::Implies(l, r) | Formula::WeakUntil(l, r) | Formula::MightyRelease(l, r) => {
            lemma_push_inwards_equivalent(*l);
            lemma_push_inwards_equivalent(*r);
            assert forall|w: spec_fn(nat, Formula) -> bool| #[trigger]
                holds(spec_push_inwards(f), w) == holds(f, w) by {
                assert(holds(spec_push_inwards(*l), w) == holds(*l, w));
                assert(holds(spec_push_inwards(*r), w) == holds(*r, w));
            }
        },
        Formula::Next(x) | Formula::Globally(x) | Formula::Eventually(x) | Formula::AllPaths(x)
        | Formula::SomePath(x) => {
            lemma_push_inwards_equivalent(*x);
            assert forall|w: spec_fn(nat, Formula) -> bool| #[trigger]
                holds(spec_push_inwards(f), w) == holds(f, w) by {
                assert(holds(spec_push_inwards(*x), w) == holds(*x, w));
            }
        },
        _ => {},
    }
}

/// `to_pnf` keeps the meaning of every formula whose comparisons compare numbers and token
/// counts (more generally: operands that pushing negations leaves as they are).
pub proof fn lemma_to_pnf_equivalent(f: Formula)
    requires
        comparisons_fixed(f),
    ensures
        equivalent(spec_to_pnf(f), f),
{
    let f1 = spec_simplify(f);
    lemma_simplify_equivalent(f);
    let f2 = spec_push_inwards(f1);
    lemma_push_inwards_equivalent(f1);
    lemma_equivalent_trans(f2, f1, f);
    let f3 = spec_simplify(f2);
    lemma_simplify_equivalent(f2);
    lemma_equivalent_trans(f3, f2, f);
    let f4 = spec_eliminate(f3);
    lemma_eliminate_equivalent(f3);
    lemma_equivalent_trans(f4, f3, f);
    let f5 = spec_simplify(f4);
    lemma_simplify_equivalent(f4);
    lemma_equivalent_trans(f5, f4, f);
}

/// What a negation may stand in front of in positive normal form: a constant or an atomic
/// proposition (a comparison is one, named by its whole syntax).
pub open spec fn is_pnf_atom(f: Formula) -> bool {
    match f {
        Formula::True | Formula::False | Formula::Var(_) | Formula::TokenCount(_)
        | Formula::Fireable(_) | Formula::Number(_) | Formula::LessEqual(_, _)
        | Formula::GreaterEqual(_, _) | Formula::Greater(_, _) | Formula::Less(_, _) => true,
        _ => false,
    }
}

/// No path quantifier occurs, the operands of comparisons included.
pub open spec fn no_path_quantifier(f: Formula) -> bool
    decreases f,
{
    match f {
        Formula::AllPaths(_) | Formula::SomePath(_) => false,
        Formula::Not(x) | Formula::Next(x) | Formula::Eventually(x) | Formula::Globally(x) =>
            no_path_quantifier(*x),
        Formula::And(l, r) | Formula::Or(l, r) | Formula::Implies(l, r) | Formula::Until(l, r)
        | Formula::Release(l, r) | Formula::WeakUntil(l, r) | Formula::MightyRelease(l, r)
        | Formula::LessEqual(l, r) | Formula::GreaterEqual(l, r) | Formula::Greater(l, r)
        | Formula::Less(l, r) => no_path_quantifier(*l) && no_path_quantifier(*r),
        _ => true,
    }
}

/// Every negation stands in front of an atom, the operands of comparisons included, and no
/// path quantifier occurs.
pub open spec fn negations_on_atoms(f: Formula) -> bool
    decreases f,
{
    match f {
        Formula::Not(x) => is_pnf_atom(*x),
        Formula::AllPaths(_) | Formula::SomePath(_) => false,
        Formula::Next(x) | Formula::Eventually(x) | Formula::Globally(x) => negations_on_atoms(*x),
        Formula::And(l, r) | Formula::Or(l, r) | Formula::Implies(l, r) | Formula::Until(l, r)
        | Formula::Release(l, r) | Formula::WeakUntil(l, r) | Formula::MightyRelease(l, r)
        | Formula::LessEqual(l, r) | Formula::GreaterEqual(l, r) | Formula::Greater(l, r)
        | Formula::Less(l, r) => negations_on_atoms(*l) && negations_on_atoms(*r),
        _ => true,
    }
}

/// Positive normal form: every negation stands in front of an atom, and the temporal
/// operators are `X`, `U` and `R` alone.
pub open spec fn in_pnf(f: Formula) -> bool
    decreases f,
{
    match f {
        Formula::Not(x) => is_pnf_atom(*x),
        Formula::AllPaths(_) | Formula::SomePath(_) | Formula::Eventually(_) | Formula::Globally(_)
        | Formula::WeakUntil(_, _) | Formula::MightyRelease(_, _) => false,
        Formula::Next(x) => in_pnf(*x),
        Formula::And(l, r) | Formula::Or(l, r) | Formula::Implies(l, r) | Formula::Until(l, r)
        | Formula::Release(l, r) => in_pnf(*l) && in_pnf(*r),
        _ => true,
    }
}

proof fn lemma_simplify_shape(f: Formula)
    ensures
        no_path_quantifier(f) ==> no_path_quantifier(spec_simplify(f)),
        negations_on_atoms(f) ==> negations_on_atoms(spec_simplify(f)),
        in_pnf(f) ==> in_pnf(spec_simplify(f)),
    decreases f,
{
    match f {
        Formula::Globally(a) => match *a {
            Formula::Globally(b) => {
                lemma_simplify_shape(Formula::Globally(b));
                assert(no_path_quantifier(f) == no_path_quantifier(Formula::Globally(b)));
                assert(negations_on_atoms(f) == negations_on_atoms(Formula::Globally(b)));
                assert(!in_pnf(f));
            },
            _ => {},
        },
        Formula::Eventually(a) => match *a {
            Formula::Eventually(b) => {
                lemma_simplify_shape(Formula::Eventually(b));
                assert(no_path_quantifier(f) == no_path_quantifier(Formula::Eventually(b)));
                assert(negations_on_atoms(f) == negations_on_atoms(Formula::Eventually(b)));
                assert(!in_pnf(f));
            },
            _ => {},
        },
        Formula::Next(a) => match *a {
            Formula::Or(l, r) | Formula::And(l, r) | Formula::Until(l, r) => {
                assert(no_path_quantifier(f) == no_path_quantifier(*a));
                assert(negations_on_atoms(f) == negations_on_atoms(*a));
                assert(in_pnf(f) == in_pnf(*a));
                assert(no_path_quantifier(f) == (no_path_quantifier(*l) && no_path_quantifier(*r)));
                assert(negations_on_atoms(f) == (negations_on_atoms(*l) && negations_on_atoms(*r)));
                assert(in_pnf(f) == (in_pnf(*l) && in_pnf(*r)));
                assert(no_path_quantifier(Formula::Next(l)) == no_path_quantifier(*l));
                assert(no_path_quantifier(Formula::Next(r)) == no_path_quantifier(*r));
                assert(negations_on_atoms(Formula::Next(l)) == negations_on_atoms(*l));
                assert(negations_on_atoms(Formula::Next(r)) == negations_on_atoms(*r));
                assert(in_pnf(Formula::Next(l)) == in_pnf(*l));
                assert(in_pnf(Formula::Next(r)) == in_pnf(*r));
            },
            _ => {},
        },
        _ => {},
    }
}

proof fn lemma_push_shape(f: Formula)
    requires
        no_path_quantifier(f),
    ensures
        negations_on_atoms(spec_push_inwards(f)),
    decreases pnf_weight(f), not_rank(f),
{
    match f {
        Formula::Not(g) => {
            assert(no_path_quantifier(*g));
            match *g {
                Formula::Next(x) => {
                    assert(pnf_weight(Formula::Next(x)) == pnf_weight(*x) + 1);
                    assert(pnf_weight(fnot(*x)) == 2 * pnf_weight(*x) + 1);
                    assert(no_path_quantifier(fnot(*x)) == no_path_quantifier(*x));
                    lemma_push_shape(Formula::Next(Box::new(fnot(*x))));
                },
                Formula::Globally(x) => {
                    assert(pnf_weight(Formula::Globally(x)) == pnf_weight(*x) + 1);
                    assert(pnf_weight(fnot(*x)) == 2 * pnf_weight(*x) + 1);
                    assert(no_path_quantifier(fnot(*x)) == no_path_quantifier(*x));
                    lemma_push_shape(Formula::Eventually(Box::new(fnot(*x))));
                },
                Formula::Eventually(x) => {
                    assert(pnf_weight(Formula::Eventually(x)) == pnf_weight(*x) + 1);
                    assert(pnf_weight(fnot(*x)) == 2 * pnf_weight(*x) + 1);
                    assert(no_path_quantifier(fnot(*x)) == no_path_quantifier(*x));
                    lemma_push_shape(Formula::Globally(Box::new(fnot(*x))));
                },
                Formula::Until(l, r) => {
                    assert(pnf_weight(Formula::Until(l, r)) == pnf_weight(*l) + pnf_weight(*r) + 1);
                    assert(pnf_weight(fnot(*l)) == 2 * pnf_weight(*l) + 1);
                    assert(pnf_weight(fnot(*r)) == 2 * pnf_weight(*r) + 1);
                    assert(no_path_quantifier(fnot(*l)) == no_path_quantifier(*l));
                    assert(no_path_quantifier(fnot(*r)) == no_path_quantifier(*r));
                    lemma_push_shape(Formula::Release(Box::new(fnot(*l)), Box::new(fnot(*r))));
                },
                Formula::Release(l, r) => {
                    assert(pnf_weight(Formula::Release(l, r)) == pnf_weight(*l) + pnf_weight(*r) + 1);
                    assert(pnf_weight(fnot(*l)) == 2 * pnf_weight(*l) + 1);
                    assert(pnf_weight(fnot(*r)) == 2 * pnf_weight(*r) + 1);
                    assert(no_path_quantifier(fnot(*l)) == no_path_quantifier(*l));
                    assert(no_path_quantifier(fnot(*r)) == no_path_quantifier(*r));
                    lemma_push_shape(Formula::Until(Box::new(fnot(*l)), Box::new(fnot(*r))));
                },
                Formula::WeakUntil(l, r) => {
                    assert(pnf_weight(Formula::WeakUntil(l, r)) == pnf_weight(*l) + pnf_weight(*r) + 1);
                    assert(pnf_weight(fnot(*l)) == 2 * pnf_weight(*l) + 1);
                    assert(pnf_weight(fnot(*r)) == 2 * pnf_weight(*r) + 1);
                    assert(no_path_quantifier(fnot(*l)) == no_path_quantifier(*l));
                    assert(no_path_quantifier(fnot(*r)) == no_path_quantifier(*r));
                    lemma_push_shape(Formula::MightyRelease(Box::new(fnot(*l)), Box::new(fnot(*r))));
                },
                Formula::MightyRelease(l, r) => {
                    assert(pnf_weight(Formula::MightyRelease(l, r)) == pnf_weight(*l) + pnf_weight(*r) + 1);
                    assert(pnf_weight(fnot(*l)) == 2 * pnf_weight(*l) + 1);
                    assert(pnf_weight(fnot(*r)) == 2 * pnf_weight(*r) + 1);
                    assert(no_path_quantifier(fnot(*l)) == no_path_quantifier(*l));
                    assert(no_path_quantifier(fnot(*r)) == no_path_quantifier(*r));
                    lemma_push_shape(Formula::WeakUntil(Box::new(fnot(*l)), Box::new(fnot(*r))));
                },
                Formula::And(l, r) => {
                    assert(pnf_weight(Formula::And(l, r)) == pnf_weight(*l) + pnf_weight(*r) + 1);
                    assert(pnf_weight(fnot(*l)) == 2 * pnf_weight(*l) + 1);
                    assert(pnf_weight(fnot(*r)) == 2 * pnf_weight(*r) + 1);
                    assert(no_path_quantifier(fnot(*l)) == no_path_quantifier(*l));
                    assert(no_path_quantifier(fnot(*r)) == no_path_quantifier(*r));
                    lemma_push_shape(Formula::Or(Box::new(fnot(*l)), Box::new(fnot(*r))));
                },
                Formula::Or(l, r) => {
                    assert(pnf_weight(Formula::Or(l, r)) == pnf_weight(*l) + pnf_weight(*r) + 1);
                    assert(pnf_weight(fnot(*l)) == 2 * pnf_weight(*l) + 1);
                    assert(pnf_weight(fnot(*r)) == 2 * pnf_weight(*r) + 1);
                    assert(no_path_quantifier(fnot(*l)) == no_path_quantifier(*l));
                    assert(no_path_quantifier(fnot(*r)) == no_path_quantifier(*r));
                    lemma_push_shape(Formula::And(Box::new(fnot(*l)), Box::new(fnot(*r))));
                },
                Formula::Not(x) => {
                    assert(pnf_weight(*g) == 2 * pnf_weight(*x) + 1);
                    lemma_push_shape(*x);
                },
                Formula::Implies(l, r) => {
                    assert(pnf_weight(Formula::Implies(l, r)) == pnf_weight(*l) + pnf_weight(*r) + 1);
                    assert(pnf_weight(fnot(*r)) == 2 * pnf_weight(*r) + 1);
                    assert(no_path_quantifier(fnot(*r)) == no_path_quantifier(*r));
                    lemma_push_shape(Formula::And(l, Box::new(fnot(*r))));
                },
                _ => {},
            }
        },
        Formula::And(l, r) | Formula::Or(l, r) | Formula::Until(l, r) | Formula::Release(l, r)
        | Formula::Implies(l, r) | Formula::WeakUntil(l, r) | Formula::MightyRelease(l, r)
        | Formula::LessEqual(l, r) | Formula::GreaterEqual(l, r) | Formula::Greater(l, r)
        | Formula::Less(l, r) => {
            lemma_push_shape(*l);
            lemma_push_shape(*r);
        },
        Formula::Next(x) | Formula::Globally(x) | Formula::Eventually(x) => {
            lemma_push_shape(*x);
        },
        _ => {},
    }
}

proof fn lemma_eliminate_all_shape(f: Formula)
    requires
        negations_on_atoms(f),
    ensures
        in_pnf(spec_eliminate_all(f)),
    decreases f,
{
    match f {
        Formula::Not(x) => {
            assert(is_pnf_atom(*x));
            assert(spec_eliminate_all(*x) == *x);
            assert(spec_eliminate_all(f) == Formula::Not(Box::new(*x)));
            assert(in_pnf(Formula::Not(Box::new(*x))));
        },
        Formula::Next(x) => {
            lemma_eliminate_all_shape(*x);
            assert(in_pnf(spec_eliminate_all(f)));
        },
        Formula::Eventually(x) => {
            lemma_eliminate_all_shape(*x);
            assert(in_pnf(Formula::True));
            assert(in_pnf(spec_eliminate_all(f)));
        },
        Formula::Globally(x) => {
            lemma_eliminate_all_shape(*x);
            assert(in_pnf(Formula::False));
            assert(in_pnf(spec_eliminate_all(f)));
        },
        Formula::WeakUntil(l, r) => {
            lemma_eliminate_all_shape(*l);
            lemma_eliminate_all_shape(*r);
            let o = Formula::Or(Box::new(spec_eliminate_all(*l)), Box::new(spec_eliminate_all(*r)));
            assert(in_pnf(o));
            assert(in_pnf(spec_eliminate_all(f)));
        },
        Formula::MightyRelease(l, r) => {
            lemma_eliminate_all_shape(*l);
            lemma_eliminate_all_shape(*r);
            let o = Formula::And(Box::new(spec_eliminate_all(*l)), Box::new(spec_eliminate_all(*r)));
            assert(in_pnf(o));
            assert(in_pnf(spec_eliminate_all(f)));
        },
        Formula::And(l, r) | Formula::Or(l, r) | Formula::Implies(l, r) | Formula::Until(l, r)
        | Formula::Release(l, r) => {
            lemma_eliminate_all_shape(*l);
            lemma_eliminate_all_shape(*r);
            assert(in_pnf(spec_eliminate_all(f)));
        },
        _ => {
            assert(in_pnf(spec_eliminate_all(f)));
        },
    }
}

proof fn lemma_eliminate_shape(f: Formula)
    requires
        negations_on_atoms(f),
    ensures
        negations_on_atoms(spec_eliminate(f)),
{
    match f {
        Formula::WeakUntil(l, r) => {
            assert(negations_on_atoms(f) == (negations_on_atoms(*l) && negations_on_atoms(*r)));
            assert(negations_on_atoms(Formula::Or(l, r)));
            assert(negations_on_atoms(Formula::Release(r, Box::new(Formula::Or(l, r)))));
        },
        Formula::MightyRelease(l, r) => {
            assert(negations_on_atoms(f) == (negations_on_atoms(*l) && negations_on_atoms(*r)));
            assert(negations_on_atoms(Formula::And(l, r)));
            assert(negations_on_atoms(Formula::Until(r, Box::new(Formula::And(l, r)))));
        },
        Formula::Eventually(x) => {
            assert(negations_on_atoms(f) == negations_on_atoms(*x));
            assert(negations_on_atoms(Formula::True));
            assert(negations_on_atoms(Formula::Until(Box::new(Formula::True), x)));
        },
        Formula::Globally(x) => {
            assert(negations_on_atoms(f) == negations_on_atoms(*x));
            assert(negations_on_atoms(Formula::False));
            assert(negations_on_atoms(Formula::Release(Box::new(Formula::False), x)));
        },
        _ => {},
    }
}

/// A formula without path quantifiers comes out of `to_pnf` with every negation in front of
/// an atom.
pub proof fn lemma_to_pnf_shape(f: Formula)
    requires
        no_path_quantifier(f),
    ensures
        negations_on_atoms(spec_to_pnf(f)),
{
    let f1 = spec_simplify(f);
    lemma_simplify_shape(f);
    let f2 = spec_push_inwards(f1);
    lemma_push_shape(f1);
    let f3 = spec_simplify(f2);
    lemma_simplify_shape(f2);
    let f4 = spec_eliminate(f3);
    lemma_eliminate_shape(f3);
    lemma_simplify_shape(f4);
}

/// The formula the automata are built for: the positive normal form, with every `F`, `G`,
/// `W` and `M` rewritten by `U` and `R` at every depth.
pub open spec fn spec_automaton_formula(f: Formula) -> Formula {
    spec_eliminate_all(spec_to_pnf(f))
}

/// The automaton formula of a formula without path quantifiers is in positive normal form
/// over `X`, `U` and `R`; where its comparisons are fixed, it means what the formula means.
pub proof fn lemma_automaton_formula(f: Formula)
    ensures
        no_path_quantifier(f) ==> in_pnf(spec_automaton_formula(f)),
        comparisons_fixed(f) ==> equivalent(spec_automaton_formula(f), f),
{
    if no_path_quantifier(f) {
        lemma_to_pnf_shape(f);
        lemma_eliminate_all_shape(spec_to_pnf(f));
    }
    if comparisons_fixed(f) {
        lemma_to_pnf_equivalent(f);
        lemma_eliminate_all_equivalent(spec_to_pnf(f));
        lemma_equivalent_trans(spec_automaton_formula(f), spec_to_pnf(f), f);
    }
}

fn not_box(x: Box<LTL>) -> (r: Box<LTL>)
    ensures
        r@ == fnot(x@),
{
    Box::new(LTL::Not(x))
}

#[verifier::spinoff_prover]
#[verifier::rlimit(50)]
fn push_negation(g: LTL) -> (r: LTL)
    ensures
        r@ == spec_push_inwards(fnot(g@)),
    decreases pnf_weight(fnot(g@)), 1nat,
{
    match g {
        LTL::Next(x) => {
            assert(ltl_view(LTL::Next(x)) == Formula::Next(Box::new(x@)));
            assert(pnf_weight(Formula::Next(Box::new(x@))) == pnf_weight(x@) + 1);
            assert(pnf_weight(fnot(x@)) == 2 * pnf_weight(x@) + 1);
            push_owned(LTL::Next(not_box(x)))
        },
        LTL::Globally(x) => {
            assert(ltl_view(LTL::Globally(x)) == Formula::Globally(Box::new(x@)));
            assert(pnf_weight(Formula::Globally(Box::new(x@))) == pnf_weight(x@) + 1);
            assert(pnf_weight(fnot(x@)) == 2 * pnf_weight(x@) + 1);
            push_owned(LTL::Eventually(not_box(x)))
        },
        LTL::Eventually(x) => {
            assert(ltl_view(LTL::Eventually(x)) == Formula::Eventually(Box::new(x@)));
            assert(pnf_weight(Formula::Eventually(Box::new(x@))) == pnf_weight(x@) + 1);
            assert(pnf_weight(fnot(x@)) == 2 * pnf_weight(x@) + 1);
            push_owned(LTL::Globally(not_box(x)))
        },
        LTL::Until(l, r) => {
            assert(ltl_view(LTL::Until(l, r)) == Formula::Until(Box::new(l@), Box::new(r@)));
            assert(pnf_weight(Formula::Until(Box::new(l@), Box::new(r@))) == pnf_weight(l@)
                + pnf_weight(r@) + 1);
            assert(pnf_weight(fnot(l@)) == 2 * pnf_weight(l@) + 1);
            assert(pnf_weight(fnot(r@)) == 2 * pnf_weight(r@) + 1);
            push_owned(LTL::Release(not_box(l), not_box(r)))
        },
        LTL::Release(l, r) => {
            assert(ltl_view(LTL::Release(l, r)) == Formula::Release(Box::new(l@), Box::new(r@)));
            assert(pnf_weight(Formula::Release(Box::new(l@), Box::new(r@))) == pnf_weight(l@)
                + pnf_weight(r@) + 1);
            assert(pnf_weight(fnot(l@)) == 2 * pnf_weight(l@) + 1);
            assert(pnf_weight(fnot(r@)) == 2 * pnf_weight(r@) + 1);
            push_owned(LTL::Until(not_box(l), not_box(r)))
        },
        LTL::WeakUntil(l, r) => {
            assert(ltl_view(LTL::WeakUntil(l, r)) == Formula::WeakUntil(Box::new(l@), Box::new(r@)));
            assert(pnf_weight(Formula::WeakUntil(Box::new(l@), Box::new(r@))) == pnf_weight(l@)
                + pnf_weight(r@) + 1);
            assert(pnf_weight(fnot(l@)) == 2 * pnf_weight(l@) + 1);
            assert(pnf_weight(fnot(r@)) == 2 * pnf_weight(r@) + 1);
            push_owned(LTL::MightyRelease(not_box(l), not_box(r)))
        },
        LTL::MightyRelease(l, r) => {
            assert(ltl_view(LTL::MightyRelease(l, r)) == Formula::MightyRelease(Box::new(l@), Box::new(r@)));
            assert(pnf_weight(Formula::MightyRelease(Box::new(l@), Box::new(r@))) == pnf_weight(l@)
                + pnf_weight(r@) + 1);
            assert(pnf_weight(fnot(l@)) == 2 * pnf_weight(l@) + 1);
            assert(pnf_weight(fnot(r@)) == 2 * pnf_weight(r@) + 1);
            push_owned(LTL::WeakUntil(not_box(l), not_box(r)))
        },
        LTL::And(l, r) => {
            assert(ltl_view(LTL::And(l, r)) == Formula::And(Box::new(l@), Box::new(r@)));
            assert(pnf_weight(Formula::And(Box::new(l@), Box::new(r@))) == pnf_weight(l@)
                + pnf_weight(r@) + 1);
            assert(pnf_weight(fnot(l@)) == 2 * pnf_weight(l@) + 1);
            assert(pnf_weight(fnot(r@)) == 2 * pnf_weight(r@) + 1);
            push_owned(LTL::Or(not_box(l), not_box(r)))
        },
        LTL::Or(l, r) => {
            assert(ltl_view(LTL::Or(l, r)) == Formula::Or(Box::new(l@), Box::new(r@)));
            assert(pnf_weight(Formula::Or(Box::new(l@), Box::new(r@))) == pnf_weight(l@)
                + pnf_weight(r@) + 1);
            assert(pnf_weight(fnot(l@)) == 2 * pnf_weight(l@) + 1);
            assert(pnf_weight(fnot(r@)) == 2 * pnf_weight(r@) + 1);
            push_owned(LTL::And(not_box(l), not_box(r)))
        },
        LTL::Not(x) => {
            assert(ltl_view(LTL::Not(x)) == fnot(x@));
            assert(pnf_weight(fnot(x@)) == 2 * pnf_weight(x@) + 1);
            assert(pnf_weight(fnot(fnot(x@))) == 2 * pnf_weight(fnot(x@)) + 1);
            push_owned(*x)
        },
        LTL::Implies(l, r) => {
            assert(ltl_view(LTL::Implies(l, r)) == Formula::Implies(Box::new(l@), Box::new(r@)));
            assert(pnf_weight(Formula::Implies(Box::new(l@), Box::new(r@))) == pnf_weight(l@)
                + pnf_weight(r@) + 1);
            assert(pnf_weight(fnot(r@)) == 2 * pnf_weight(r@) + 1);
            push_owned(LTL::And(l, not_box(r)))
        },
        other => {
            proof {
                lemma_view_variant(other);
            }
            LTL::Not(Box::new(other))
        },
    }
}

fn push_owned(f: LTL) -> (r: LTL)
    ensures
        r@ == spec_push_inwards(f@),
    decreases pnf_weight(f@), not_rank(f@),
{
    match f {
        LTL::Not(g) => push_negation(*g),
        LTL::And(l, r) => LTL::And(Box::new(push_owned(*l)), Box::new(push_owned(*r))),
        LTL::Or(l, r) => LTL::Or(Box::new(push_owned(*l)), Box::new(push_owned(*r))),
        LTL::Until(l, r) => LTL::Until(Box::new(push_owned(*l)), Box::new(push_owned(*r))),
        LTL::Release(l, r) => LTL::Release(Box::new(push_owned(*l)), Box::new(push_owned(*r))),
        LTL::Implies(l, r) => LTL::Implies(Box::new(push_owned(*l)), Box::new(push_owned(*r))),
        LTL::WeakUntil(l, r) => LTL::WeakUntil(Box::new(push_owned(*l)), Box::new(push_owned(*r))),
        LTL::MightyRelease(l, r) => LTL::MightyRelease(
            Box::new(push_owned(*l)),
            Box::new(push_owned(*r)),
        ),
        LTL::LessEqual(l, r) => LTL::LessEqual(Box::new(push_owned(*l)), Box::new(push_owned(*r))),
        LTL::GreaterEqual(l, r) => LTL::GreaterEqual(
            Box::new(push_owned(*l)),
            Box::new(push_owned(*r)),
        ),
        LTL::Greater(l, r) => LTL::Greater(Box::new(push_owned(*l)), Box::new(push_owned(*r))),
        LTL::Less(l, r) => LTL::Less(Box::new(push_owned(*l)), Box::new(push_owned(*r))),
        LTL::Next(x) => LTL::Next(Box::new(push_owned(*x))),
        LTL::Globally(x) => LTL::Globally(Box::new(push_owned(*x))),
        LTL::Eventually(x) => LTL::Eventually(Box::new(push_owned(*x))),
        LTL::AllPaths(x) => LTL::AllPaths(Box::new(push_owned(*x))),
        LTL::SomePath(x) => LTL::SomePath(Box::new(push_owned(*x))),
        other => other,
    }
}

fn eliminate_all_owned(f: LTL) -> (r: LTL)
    ensures
        r@ == spec_eliminate_all(f@),
    decreases f@,
{
    let ghost fv = f@;
    match f {
        LTL::Eventually(x) => {
            assert(ltl_view(LTL::True) == Formula::True);
            assert(ltl_view(LTL::Eventually(x)) == Formula::Eventually(Box::new(x@)));
            let e = eliminate_all_owned(*x);
            assert(e@ == spec_eliminate_all(x@));
            let u = LTL::Until(Box::new(LTL::True), Box::new(e));
            assert(u@ == Formula::Until(Box::new(Formula::True), Box::new(e@)));
            assert(fv == Formula::Eventually(Box::new(x@)));
            assert(spec_eliminate_all(fv) == Formula::Until(Box::new(Formula::True), Box::new(spec_eliminate_all(x@))));
            assert(u@ == spec_eliminate_all(fv));
            u
        },
        LTL::Globally(x) => {
            assert(ltl_view(LTL::False) == Formula::False);
            assert(ltl_view(LTL::Globally(x)) == Formula::Globally(Box::new(x@)));
            let e = eliminate_all_owned(*x);
            let u = LTL::Release(Box::new(LTL::False), Box::new(e));
            assert(u@ == Formula::Release(Box::new(Formula::False), Box::new(e@)));
            u
        },
        LTL::WeakUntil(l, r) => {
            let ghost lv = l@;
            let ghost rv = r@;
            assert(fv == Formula::WeakUntil(Box::new(lv), Box::new(rv)));
            let er = eliminate_all_owned(*r);
            let er2 = er.clone();
            assert(er2@ == er@);
            let el = eliminate_all_owned(*l);
            assert(el@ == spec_eliminate_all(lv) && er@ == spec_eliminate_all(rv));
            let o = LTL::Or(Box::new(el), Box::new(er2));
            assert(o@ == Formula::Or(Box::new(el@), Box::new(er2@)));
            let u = LTL::Release(Box::new(er), Box::new(o));
            assert(u@ == Formula::Release(Box::new(er@), Box::new(o@)));
            assert(u@ == spec_eliminate_all(fv));
            u
        },
        LTL::MightyRelease(l, r) => {
            let ghost lv = l@;
            let ghost rv = r@;
            assert(fv == Formula::MightyRelease(Box::new(lv), Box::new(rv)));
            let er = eliminate_all_owned(*r);
            let er2 = er.clone();
            assert(er2@ == er@);
            let el = eliminate_all_owned(*l);
            assert(el@ == spec_eliminate_all(lv) && er@ == spec_eliminate_all(rv));
            let o = LTL::And(Box::new(el), Box::new(er2));
            assert(o@ == Formula::And(Box::new(el@), Box::new(er2@)));
            let u = LTL::Until(Box::new(er), Box::new(o));
            assert(u@ == Formula::Until(Box::new(er@), Box::new(o@)));
            assert(u@ == spec_eliminate_all(fv));
            u
        },
        LTL::Not(x) => LTL::Not(Box::new(eliminate_all_owned(*x))),
        LTL::Next(x) => LTL::Next(Box::new(eliminate_all_owned(*x))),
        LTL::AllPaths(x) => LTL::AllPaths(Box::new(eliminate_all_owned(*x))),
        LTL::SomePath(x) => LTL::SomePath(Box::new(eliminate_all_owned(*x))),
        LTL::And(l, r) => LTL::And(Box::new(eliminate_all_owned(*l)), Box::new(eliminate_all_owned(*r))),
        LTL::Or(l, r) => LTL::Or(Box::new(eliminate_all_owned(*l)), Box::new(eliminate_all_owned(*r))),
        LTL::Implies(l, r) => LTL::Implies(Box::new(eliminate_all_owned(*l)), Box::new(eliminate_all_owned(*r))),
        LTL::Until(l, r) => LTL::Until(Box::new(eliminate_all_owned(*l)), Box::new(eliminate_all_owned(*r))),
        LTL::Release(l, r) => LTL::Release(Box::new(eliminate_all_owned(*l)), Box::new(eliminate_all_owned(*r))),
        other => {
            proof {
                lemma_view_variant(other);
            }
            other
        },
    }
}

fn eliminate_owned(f: LTL) -> (r: LTL)
    ensures
        r@ == spec_eliminate(f@),
{
    match f {
        LTL::Eventually(x) => {
            assert(ltl_view(LTL::True) == Formula::True);
            LTL::Until(Box::new(LTL::True), x)
        },
        LTL::Globally(x) => {
            assert(ltl_view(LTL::False) == Formula::False);
            LTL::Release(Box::new(LTL::False), x)
        },
        LTL::WeakUntil(l, r) => {
            let r2 = r.clone();
            let lr = LTL::Or(l, r2);
            assert(lr@ == Formula::Or(Box::new(l@), Box::new(r@)));
            LTL::Release(r, Box::new(lr))
        },
        LTL::MightyRelease(l, r) => {
            let r2 = r.clone();
            let lr = LTL::And(l, r2);
            assert(lr@ == Formula::And(Box::new(l@), Box::new(r@)));
            LTL::Until(r, Box::new(lr))
        },
        other => other,
    }
}

fn simplify_owned(f: LTL) -> (r: LTL)
    ensures
        r@ == spec_simplify(f@),
    decreases f@,
{
    match f {
        LTL::Globally(a) => match *a {
            LTL::Globally(b) => {
                assert(ltl_view(LTL::Globally(b)) == Formula::Globally(Box::new(b@)));
                simplify_owned(LTL::Globally(b))
            },
            other => {
                proof {
                    lemma_view_variant(other);
                }
                LTL::Globally(Box::new(other))
            },
        },
        LTL::Eventually(a) => match *a {
            LTL::Eventually(b) => {
                assert(ltl_view(LTL::Eventually(b)) == Formula::Eventually(Box::new(b@)));
                simplify_owned(LTL::Eventually(b))
            },
            other => {
                proof {
                    lemma_view_variant(other);
                }
                LTL::Eventually(Box::new(other))
            },
        },
        LTL::Next(a) => match *a {
            LTL::Or(l, r) => {
                assert(ltl_view(LTL::Or(l, r)) == Formula::Or(Box::new(l@), Box::new(r@)));
                let nl = LTL::Next(l);
                let nr = LTL::Next(r);
                assert(nl@ == Formula::Next(Box::new(l@)));
                assert(nr@ == Formula::Next(Box::new(r@)));
                LTL::Or(Box::new(nl), Box::new(nr))
            },
            LTL::And(l, r) => {
                assert(ltl_view(LTL::And(l, r)) == Formula::And(Box::new(l@), Box::new(r@)));
                let nl = LTL::Next(l);
                let nr = LTL::Next(r);
                assert(nl@ == Formula::Next(Box::new(l@)));
                assert(nr@ == Formula::Next(Box::new(r@)));
                LTL::And(Box::new(nl), Box::new(nr))
            },
            LTL::Until(l, r) => {
                assert(ltl_view(LTL::Until(l, r)) == Formula::Until(Box::new(l@), Box::new(r@)));
                let nl = LTL::Next(l);
                let nr = LTL::Next(r);
                assert(nl@ == Formula::Next(Box::new(l@)));
                assert(nr@ == Formula::Next(Box::new(r@)));
                LTL::Until(Box::new(nl), Box::new(nr))
            },
            other => {
                proof {
                    lemma_view_variant(other);
                }
                LTL::Next(Box::new(other))
            },
        },
        other => other,
    }
}

/// Pushes negations inwards, in place.
pub fn push_pnf_inwards(expr: &mut LTL)
    ensures
        final(expr)@ == spec_push_inwards(old(expr)@),
{
    let mut e = LTL::True;
    std::mem::swap(&mut e, expr);
    *expr = push_owned(e);
}

/// Rewrites every `F`, `G`, `W` and `M` with `U` and `R`, in place.
pub fn pnf_eliminate_temporal_operators(expr: &mut LTL)
    ensures
        final(expr)@ == spec_eliminate(old(expr)@),
{
    let mut e = LTL::True;
    std::mem::swap(&mut e, expr);
    *expr = eliminate_owned(e);
}

/// Collapses outermost runs of `G` or `F` and distributes an outermost `X`, in place.
pub fn pnf_simplifications(expr: &mut LTL)
    ensures
        final(expr)@ == spec_simplify(old(expr)@),
{
    let mut e = LTL::True;
    std::mem::swap(&mut e, expr);
    *expr = simplify_owned(e);
}

/// The formula the automata are built for: `to_pnf`, then every `F`, `G`, `W` and `M`
/// rewritten at every depth.
pub fn automaton_formula(ltl: &LTL) -> (r: LTL)
    ensures
        r@ == spec_automaton_formula(ltl@),
        no_path_quantifier(ltl@) ==> in_pnf(r@),
        comparisons_fixed(ltl@) ==> equivalent(r@, ltl@),
{
    proof {
        lemma_automaton_formula(ltl@);
    }
    let pnf = to_pnf(ltl);
    eliminate_all_owned(pnf)
}

/// The positive normal form of a formula.
pub fn to_pnf(ltl: &LTL) -> (r: LTL)
    ensures
        r@ == spec_to_pnf(ltl@),
        no_path_quantifier(ltl@) ==> negations_on_atoms(r@),
        comparisons_fixed(ltl@) ==> equivalent(r@, ltl@),
{
    proof {
        if no_path_quantifier(ltl@) {
            lemma_to_pnf_shape(ltl@);
        }
        if comparisons_fixed(ltl@) {
            lemma_to_pnf_equivalent(ltl@);
        }
    }
    let mut pnf = ltl.clone();
    pnf_simplifications(&mut pnf);
    push_pnf_inwards(&mut pnf);
    pnf_simplifications(&mut pnf);
    pnf_eliminate_temporal_operators(&mut pnf);
    pnf_simplifications(&mut pnf);
    pnf
}

} // verus!
