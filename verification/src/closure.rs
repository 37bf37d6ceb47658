use vstd::prelude::*;

use crate::ltl_parser::{lemma_view_variant, ltl_equal, spec_size, Formula, LTL};

verus! {

/// The values of a sequence of formulas.
pub open spec fn fviews(s: Seq<LTL>) -> Seq<Formula> {
    s.map_values(|x: LTL| x@)
}

/// A formula with one outer negation taken off.
pub open spec fn strip_not(f: Formula) -> Formula {
    match f {
        Formula::Not(x) => *x,
        _ => f,
    }
}

/// Depth-first, left to right: each formula with one outer negation taken off, appended to
/// `acc` the first time it is met, and then its operands visited. The operands of an
/// atomic comparison are not visited.
pub open spec fn closure_visit(f: Formula, acc: Seq<Formula>) -> Seq<Formula>
    decreases f,
{
    let g = strip_not(f);
    if acc.contains(g) {
        acc
    } else {
        let acc1 = acc.push(g);
        match f {
            Formula::Not(x) => match *x {
                Formula::Not(y) => closure_visit(*y, acc1),
                Formula::And(a, b) | Formula::Or(a, b) | Formula::Implies(a, b) | Formula::Until(
                    a,
                    b,
                ) | Formula::Release(a, b) | Formula::WeakUntil(a, b) | Formula::MightyRelease(
                    a,
                    b,
                ) => closure_visit(*b, closure_visit(*a, acc1)),
                Formula::Next(y) | Formula::Eventually(y) | Formula::Globally(y)
                | Formula::AllPaths(y) | Formula::SomePath(y) => closure_visit(*y, acc1),
                _ => acc1,
            },
            Formula::And(a, b) | Formula::Or(a, b) | Formula::Implies(a, b) | Formula::Until(a, b)
            | Formula::Release(a, b) | Formula::WeakUntil(a, b) | Formula::MightyRelease(a, b) =>
                closure_visit(*b, closure_visit(*a, acc1)),
            Formula::Next(y) | Formula::Eventually(y) | Formula::Globally(y) | Formula::AllPaths(y)
            | Formula::SomePath(y) => closure_visit(*y, acc1),
            _ => acc1,
        }
    }
}

/// `x` inserted into `s` after the last element that is no larger than it.
pub open spec fn insert_by_size(s: Seq<Formula>, x: Formula) -> Seq<Formula>
    decreases s.len(),
{
    if s.len() == 0 {
        seq![x]
    } else if spec_size(s.last()) <= spec_size(x) {
        s.push(x)
    } else {
        insert_by_size(s.drop_last(), x).push(s.last())
    }
}

/// The stable sort of `s` by size.
pub open spec fn sort_by_size(s: Seq<Formula>) -> Seq<Formula>
    decreases s.len(),
{
    if s.len() == 0 {
        s
    } else {
        insert_by_size(sort_by_size(s.drop_last()), s.last())
    }
}

/// The closure of a formula: its subformulas without outer negation, in the order in which
/// a depth-first visit meets them, stably sorted by size.
pub open spec fn spec_closure(f: Formula) -> Seq<Formula> {
    sort_by_size(closure_visit(f, seq![]))
}

/// Every formula of `s` has at most `n` nodes.
pub open spec fn sizes_within(s: Seq<Formula>, n: nat) -> bool {
    forall|i: int| 0 <= i < s.len() ==> spec_size(#[trigger] s[i]) <= n
}

proof fn lemma_visit_sizes(f: Formula, acc: Seq<Formula>, n: nat)
    requires
        spec_size(f) <= n,
        sizes_within(acc, n),
    ensures
        sizes_within(closure_visit(f, acc), n),
    decreases f,
{
    let g = strip_not(f);
    if !acc.contains(g) {
        let acc1 = acc.push(g);
        assert(spec_size(g) <= n);
        assert(sizes_within(acc1, n));
        match f {
            Formula::Not(x) => match *x {
                Formula::Not(y) => lemma_visit_sizes(*y, acc1, n),
                Formula::And(a, b) | Formula::Or(a, b) | Formula::Implies(a, b) | Formula::Until(
                    a,
                    b,
                ) | Formula::Release(a, b) | Formula::WeakUntil(a, b) | Formula::MightyRelease(
                    a,
                    b,
                ) => {
                    lemma_visit_sizes(*a, acc1, n);
                    lemma_visit_sizes(*b, closure_visit(*a, acc1), n);
                },
                Formula::Next(y) | Formula::Eventually(y) | Formula::Globally(y)
                | Formula::AllPaths(y) | Formula::SomePath(y) => lemma_visit_sizes(*y, acc1, n),
                _ => {},
            },
            Formula::And(a, b) | Formula::Or(a, b) | Formula::Implies(a, b) | Formula::Until(a, b)
            | Formula::Release(a, b) | Formula::WeakUntil(a, b) | Formula::MightyRelease(a, b) => {
                lemma_visit_sizes(*a, acc1, n);
                lemma_visit_sizes(*b, closure_visit(*a, acc1), n);
            },
            Formula::Next(y) | Formula::Eventually(y) | Formula::Globally(y) | Formula::AllPaths(y)
            | Formula::SomePath(y) => lemma_visit_sizes(*y, acc1, n),
            _ => {},
        }
    }
}

/// Whether `closure` holds `f` already.
fn push_unique_contains(closure: &Vec<LTL>, f: &LTL) -> (r: bool)
    ensures
        r == fviews(closure@).contains(f@),
{
    let mut i: usize = 0;
    while i < closure.len()
        invariant
            i <= closure.len(),
            forall|j: int| 0 <= j < i ==> closure@[j]@ != f@,
        decreases closure.len() - i,
    {
        if ltl_equal(&closure[i], f) {
            assert(fviews(closure@)[i as int] == f@);
            return true;
        }
        i = i + 1;
    }
    assert forall|j: int| 0 <= j < fviews(closure@).len() implies fviews(closure@)[j] != f@ by {
        assert(closure@[j]@ != f@);
    }
    false
}

/// Appends `formula` to `closure` unless it is there already.
pub fn push_unique(closure: &mut Vec<LTL>, formula: LTL)
    ensures
        fviews(final(closure)@) == if fviews(old(closure)@).contains(formula@) {
            fviews(old(closure)@)
        } else {
            fviews(old(closure)@).push(formula@)
        },
{
    if !push_unique_contains(closure, &formula) {
        closure.push(formula);
        assert(fviews(closure@) =~= fviews(old(closure)@).push(formula@));
    }
}

/// The formula with one outer negation taken off.
pub fn remove_negate(ltl: &LTL) -> (r: LTL)
    ensures
        r@ == strip_not(ltl@),
{
    match ltl {
        LTL::Not(inner) => (**inner).clone(),
        _ => {
            proof {
                lemma_view_variant(*ltl);
            }
            ltl.clone()
        },
    }
}

fn compute_closure_helper(ltl: &LTL, closure: &mut Vec<LTL>)
    ensures
        fviews(final(closure)@) == closure_visit(ltl@, fviews(old(closure)@)),
    decreases ltl,
{
    let non_negated = remove_negate(ltl);
    if push_unique_contains(closure, &non_negated) {
        return ;
    }
    push_unique(closure, non_negated);
    assert(fviews(closure@) =~= fviews(old(closure)@).push(strip_not(ltl@)));
    let g: &LTL = match ltl {
        LTL::Not(inner) => inner,
        _ => ltl,
    };
    proof {
        lemma_view_variant(*ltl);
        lemma_view_variant(*g);
    }
    match g {
        LTL::Not(inner) => compute_closure_helper(inner, closure),
        LTL::And(left, right) | LTL::Or(left, right) | LTL::Implies(left, right) | LTL::Until(
            left,
            right,
        ) | LTL::Release(left, right) | LTL::WeakUntil(left, right) | LTL::MightyRelease(
            left,
            right,
        ) => {
            compute_closure_helper(left, closure);
            compute_closure_helper(right, closure);
        },
        LTL::Next(inner) | LTL::Eventually(inner) | LTL::Globally(inner) | LTL::AllPaths(inner)
        | LTL::SomePath(inner) => compute_closure_helper(inner, closure),
        _ => {},
    }
}

proof fn lemma_insert_by_size_at(s: Seq<Formula>, x: Formula, p: int)
    requires
        0 <= p <= s.len(),
        forall|j: int| p <= j < s.len() ==> spec_size(#[trigger] s[j]) > spec_size(x),
        p == 0 || spec_size(s[p - 1]) <= spec_size(x),
    ensures
        insert_by_size(s, x) == s.take(p).push(x) + s.skip(p),
    decreases s.len(),
{
    if s.len() == 0 {
        assert(s.take(p).push(x) + s.skip(p) =~= seq![x]);
    } else if p == s.len() {
        assert(s.take(p).push(x) + s.skip(p) =~= s.push(x));
    } else {
        let t = s.drop_last();
        lemma_insert_by_size_at(t, x, p);
        assert(s.take(p).push(x) + s.skip(p) =~= (t.take(p).push(x) + t.skip(p)).push(s.last()));
    }
}

/// Sorts the closure by size, keeping the order of formulas of equal size.
pub fn sort_closure(closure: &mut Vec<LTL>)
    requires
        sizes_within(fviews(old(closure)@), usize::MAX as nat),
    ensures
        fviews(final(closure)@) == sort_by_size(fviews(old(closure)@)),
{
    let ghost input = fviews(closure@);
    let mut out: Vec<LTL> = Vec::new();
    let mut i: usize = 0;
    while i < closure.len()
        invariant
            i <= closure.len(),
            input == fviews(closure@),
            sizes_within(input, usize::MAX as nat),
            fviews(out@) == sort_by_size(input.take(i as int)),
            sizes_within(fviews(out@), usize::MAX as nat),
        decreases closure.len() - i,
    {
        let x = closure[i].clone();
        assert(input.take(i + 1).drop_last() =~= input.take(i as int));
        assert(spec_size(input[i as int]) <= usize::MAX);
        let xs = x.size();
        let mut pos: usize = out.len();
        assert forall|j: int| 0 <= j < out.len() implies spec_size(#[trigger] out@[j]@)
            <= usize::MAX by {
            assert(fviews(out@)[j] == out@[j]@);
        }
        while pos > 0 && out[pos - 1].size() > xs
            invariant
                pos <= out.len(),
                xs == spec_size(x@),
                sizes_within(fviews(out@), usize::MAX as nat),
                forall|j: int| 0 <= j < out.len() ==> spec_size(#[trigger] out@[j]@) <= usize::MAX,
                forall|j: int| pos <= j < out.len() ==> spec_size(#[trigger] out@[j]@) > xs,
            decreases pos,
        {
            assert(spec_size(fviews(out@)[pos - 1]) <= usize::MAX);
            pos = pos - 1;
        }
        let ghost before = fviews(out@);
        proof {
            if pos > 0 {
                assert(spec_size(fviews(out@)[pos - 1]) <= usize::MAX);
            }
            assert forall|j: int| pos <= j < before.len() implies spec_size(#[trigger] before[j])
                > spec_size(x@) by {
                assert(before[j] == out@[j]@);
            }
            lemma_insert_by_size_at(before, x@, pos as int);
        }
        out.insert(pos, x);
        assert(fviews(out@) =~= before.take(pos as int).push(x@) + before.skip(pos as int));
        assert(x@ == input.take(i + 1).last());
        i = i + 1;
        assert forall|j: int| 0 <= j < fviews(out@).len() implies spec_size(
            #[trigger] fviews(out@)[j],
        ) <= usize::MAX by {
            if j < pos {
                assert(fviews(out@)[j] == before[j]);
            } else if j > pos {
                assert(fviews(out@)[j] == before[j - 1]);
            }
        }
    }
    assert(input.take(i as int) =~= input);
    *closure = out;
}

/// The closure of a formula, sorted by size.
pub fn compute_closure(ltl: &LTL) -> (r: Vec<LTL>)
    requires
        spec_size(ltl@) <= usize::MAX,
    ensures
        fviews(r@) == spec_closure(ltl@),
{
    let mut closure: Vec<LTL> = Vec::new();
    assert(fviews(closure@) =~= Seq::<Formula>::empty());
    compute_closure_helper(ltl, &mut closure);
    proof {
        lemma_visit_sizes(ltl@, seq![], usize::MAX as nat);
    }
    sort_closure(&mut closure);
    closure
}

} // verus!
