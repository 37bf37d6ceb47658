use vstd::prelude::*;

use crate::closure::{fviews, strip_not};
use crate::ltl_parser::{lemma_view_variant, ltl_equal, spec_size, Formula, LTL};

verus! {

/// The values of a sequence of truth vectors.
pub open spec fn bviews(s: Seq<Vec<bool>>) -> Seq<Seq<bool>> {
    s.map_values(|v: Vec<bool>| v@)
}

/// The first index at which `f` occurs in `s`.
pub open spec fn first_index(s: Seq<Formula>, f: Formula) -> Option<int>
    decreases s.len(),
{
    if s.len() == 0 {
        None
    } else if s[0] == f {
        Some(0)
    } else {
        match first_index(s.drop_first(), f) {
            Some(i) => Some(i + 1),
            None => None,
        }
    }
}

pub proof fn lemma_first_index(s: Seq<Formula>, f: Formula)
    ensures
        first_index(s, f) is Some <==> s.contains(f),
        first_index(s, f) matches Some(i) ==> 0 <= i < s.len() && s[i] == f && forall|j: int|
            0 <= j < i ==> #[trigger] s[j] != f,
    decreases s.len(),
{
    if s.len() > 0 && s[0] != f {
        lemma_first_index(s.drop_first(), f);
        if s.contains(f) {
            let k = choose|k: int| 0 <= k < s.len() && s[k] == f;
            assert(s.drop_first()[k - 1] == f);
        }
        if first_index(s.drop_first(), f) is Some {
            let i = first_index(s.drop_first(), f)->0;
            assert forall|j: int| 0 <= j < i + 1 implies #[trigger] s[j] != f by {
                if j > 0 {
                    assert(s[j] == s.drop_first()[j - 1]);
                }
            }
        }
    }
}

/// The truth value that `partial` gives `f`: directly, or for a negation through the value
/// of its operand, found at its first place in the closure.
pub open spec fn spec_assigned_truth(f: Formula, partial: Seq<bool>, closure: Seq<Formula>) -> Option<
    bool,
> {
    match f {
        Formula::Not(inner) => match first_index(closure, *inner) {
            Some(i) => if i < partial.len() {
                Some(!partial[i])
            } else {
                None
            },
            None => None,
        },
        _ => match first_index(closure, f) {
            Some(i) => if i < partial.len() {
                Some(partial[i])
            } else {
                None
            },
            None => None,
        },
    }
}

/// The local rules for giving the last value of `partial` to `f`: constants keep their value,
/// boolean connectives agree with the values of their operands, and `U`/`R` agree with the
/// values of their operands now as far as those decide them.
pub open spec fn spec_consistent_with_partial(
    f: Formula,
    partial: Seq<bool>,
    closure: Seq<Formula>,
) -> bool {
    let value = partial.last();
    match f {
        Formula::True => value,
        Formula::False => !value,
        Formula::And(l, r) => {
            let la = spec_assigned_truth(*l, partial, closure);
            let ra = spec_assigned_truth(*r, partial, closure);
            if value {
                !(la == Some(false) || ra == Some(false))
            } else {
                !(la == Some(true) && ra == Some(true))
            }
        },
        Formula::Or(l, r) => {
            let la = spec_assigned_truth(*l, partial, closure);
            let ra = spec_assigned_truth(*r, partial, closure);
            if value {
                !(la == Some(false) && ra == Some(false))
            } else {
                !(la == Some(true) || ra == Some(true))
            }
        },
        Formula::Implies(l, r) => {
            let la = spec_assigned_truth(*l, partial, closure);
            let ra = spec_assigned_truth(*r, partial, closure);
            if value {
                !(la == Some(true) && ra == Some(false))
            } else {
                !(la == Some(false) || ra == Some(true))
            }
        },
        Formula::Until(l, r) => {
            let la = spec_assigned_truth(*l, partial, closure);
            let ra = spec_assigned_truth(*r, partial, closure);
            if value {
                !(la == Some(false) && ra == Some(false))
            } else {
                ra != Some(true)
            }
        },
        Formula::Release(l, r) => {
            let la = spec_assigned_truth(*l, partial, closure);
            let ra = spec_assigned_truth(*r, partial, closure);
            if value {
                ra != Some(false)
            } else {
                !(la == Some(true) && ra == Some(true))
            }
        },
        _ => true,
    }
}

/// The local rules read directly: a constant has its value; `&`, `|` and `->` have the value
/// of the connective on their operands' values, where those are given; `l U r` holds where `r`
/// does and fails where both fail; `l R r` fails where `r` fails and holds where both hold.
pub open spec fn direct_rule(f: Formula, value: bool, earlier: Seq<bool>, closure: Seq<Formula>) -> bool {
    match f {
        Formula::True => value,
        Formula::False => !value,
        Formula::And(l, r) => match (
            spec_assigned_truth(*l, earlier, closure),
            spec_assigned_truth(*r, earlier, closure),
        ) {
            (Some(a), Some(b)) => value == (a && b),
            _ => true,
        },
        Formula::Or(l, r) => match (
            spec_assigned_truth(*l, earlier, closure),
            spec_assigned_truth(*r, earlier, closure),
        ) {
            (Some(a), Some(b)) => value == (a || b),
            _ => true,
        },
        Formula::Implies(l, r) => match (
            spec_assigned_truth(*l, earlier, closure),
            spec_assigned_truth(*r, earlier, closure),
        ) {
            (Some(a), Some(b)) => value == (!a || b),
            _ => true,
        },
        Formula::Until(l, r) => {
            let la = spec_assigned_truth(*l, earlier, closure);
            let ra = spec_assigned_truth(*r, earlier, closure);
            &&& ra == Some(true) ==> value
            &&& la == Some(false) && ra == Some(false) ==> !value
        },
        Formula::Release(l, r) => {
            let la = spec_assigned_truth(*l, earlier, closure);
            let ra = spec_assigned_truth(*r, earlier, closure);
            &&& ra == Some(false) ==> !value
            &&& la == Some(true) && ra == Some(true) ==> value
        },
        _ => true,
    }
}

proof fn lemma_assigned_extend(f: Formula, q: Seq<bool>, p: Seq<bool>, closure: Seq<Formula>)
    requires
        q.len() <= p.len(),
        forall|j: int| 0 <= j < q.len() ==> p[j] == q[j],
    ensures
        spec_assigned_truth(f, q, closure) matches Some(x) ==> spec_assigned_truth(f, p, closure) == Some(x),
{
    match f {
        Formula::Not(inner) => {
            lemma_first_index(closure, *inner);
            if let Some(i) = first_index(closure, *inner) {
                if i < q.len() {
                    assert(p[i] == q[i]);
                }
            }
        },
        _ => {
            lemma_first_index(closure, f);
            if let Some(i) = first_index(closure, f) {
                if i < q.len() {
                    assert(p[i] == q[i]);
                }
            }
        },
    }
}

/// `x` first stands in `closure` before position `i`.
pub open spec fn first_before(closure: Seq<Formula>, x: Formula, i: int) -> bool {
    first_index(closure, x) matches Some(j) && j < i
}

/// The operands of the `&`, `|` or `->` at position `i`, each without outer negation, stand
/// before it.
pub open spec fn operands_before_at(closure: Seq<Formula>, i: int) -> bool {
    match closure[i] {
        Formula::And(l, r) | Formula::Or(l, r) | Formula::Implies(l, r) => first_before(
            closure,
            strip_not(*l),
            i,
        ) && first_before(closure, strip_not(*r), i),
        _ => true,
    }
}

/// Each `&`, `|` and `->` of the closure comes after its operands.
pub open spec fn operands_before(closure: Seq<Formula>) -> bool {
    forall|i: int| 0 <= i < closure.len() ==> #[trigger] operands_before_at(closure, i)
}

proof fn lemma_strip_smaller(o: Formula, f: Formula)
    requires
        spec_size(o) < spec_size(f),
    ensures
        strip_not(o) != f,
{
    if let Formula::Not(x) = o {
        assert(spec_size(o) == 1 + spec_size(*x));
    }
}

/// An operand of the formula at `i` gets the same value from the values before `i` as from
/// those up to `i`.
proof fn lemma_operand_same(closure: Seq<Formula>, v: Seq<bool>, i: int, o: Formula)
    requires
        0 <= i < v.len(),
        strip_not(o) != closure[i],
    ensures
        spec_assigned_truth(o, v.take(i + 1), closure) == spec_assigned_truth(o, v.take(i), closure),
{
    lemma_first_index(closure, strip_not(o));
    lemma_first_index(closure, o);
    match o {
        Formula::Not(inner) => {
            if let Some(j) = first_index(closure, *inner) {
                if j < i {
                    assert(v.take(i + 1)[j] == v.take(i)[j]);
                }
            }
        },
        _ => {
            if let Some(j) = first_index(closure, o) {
                if j < i {
                    assert(v.take(i + 1)[j] == v.take(i)[j]);
                }
            }
        },
    }
}

proof fn lemma_before_some(closure: Seq<Formula>, v: Seq<bool>, i: int, o: Formula)
    requires
        0 <= i <= v.len(),
        first_before(closure, strip_not(o), i),
    ensures
        spec_assigned_truth(o, v.take(i), closure) is Some,
{
    lemma_first_index(closure, strip_not(o));
}

/// Where the operands of `&`, `|` and `->` come before them, the local rules of consistency
/// are the direct ones: a constant has its value, a connective the value of its operands, and
/// `U`, `R` the values that their operands decide now.
pub proof fn lemma_direct_equiv(closure: Seq<Formula>, v: Seq<bool>, i: int)
    requires
        operands_before(closure),
        0 <= i < v.len(),
        i < closure.len(),
    ensures
        spec_consistent_with_partial(closure[i], v.take(i + 1), closure) == direct_rule(
            closure[i],
            v[i],
            v.take(i),
            closure,
        ),
{
    let p = v.take(i + 1);
    assert(p.last() == v[i]);
    assert(operands_before_at(closure, i));
    match closure[i] {
        Formula::And(l, r) | Formula::Or(l, r) | Formula::Implies(l, r) => {
            lemma_strip_smaller(*l, closure[i]);
            lemma_strip_smaller(*r, closure[i]);
            lemma_operand_same(closure, v, i, *l);
            lemma_operand_same(closure, v, i, *r);
            lemma_before_some(closure, v, i, *l);
            lemma_before_some(closure, v, i, *r);
        },
        Formula::Until(l, r) | Formula::Release(l, r) => {
            lemma_strip_smaller(*l, closure[i]);
            lemma_strip_smaller(*r, closure[i]);
            lemma_operand_same(closure, v, i, *l);
            lemma_operand_same(closure, v, i, *r);
        },
        _ => {},
    }
}

/// In a consistent vector, each value follows the local rule of its formula, read directly
/// over the values before it.
pub proof fn lemma_consistent_direct(closure: Seq<Formula>, v: Seq<bool>, i: int)
    requires
        spec_consistent(closure, v),
        0 <= i < v.len(),
    ensures
        direct_rule(closure[i], v[i], v.take(i), closure),
{
    let p = v.take(i + 1);
    let q = v.take(i);
    assert(spec_consistent_with_partial(closure[i], p, closure));
    assert(p.last() == v[i]);
    match closure[i] {
        Formula::And(l, r) | Formula::Or(l, r) | Formula::Implies(l, r) | Formula::Until(l, r)
        | Formula::Release(l, r) => {
            lemma_assigned_extend(*l, q, p, closure);
            lemma_assigned_extend(*r, q, p, closure);
        },
        _ => {},
    }
}

/// A truth vector over the closure is consistent when each of its values follows the local
/// rules given the values before it.
pub open spec fn spec_consistent(closure: Seq<Formula>, v: Seq<bool>) -> bool {
    forall|i: int|
        0 <= i < v.len() ==> #[trigger] spec_consistent_with_partial(
            closure[i],
            v.take(i + 1),
            closure,
        )
}

/// The consistent extensions of `partial` to the length of the closure, those that extend
/// `partial` by `true` first.
pub open spec fn completions(closure: Seq<Formula>, partial: Seq<bool>) -> Seq<Seq<bool>>
    decreases closure.len() - partial.len(),
{
    if partial.len() >= closure.len() {
        seq![partial]
    } else {
        let t = partial.push(true);
        let f = partial.push(false);
        let idx = partial.len() as int;
        (if spec_consistent_with_partial(closure[idx], t, closure) {
            completions(closure, t)
        } else {
            seq![]
        }) + (if spec_consistent_with_partial(closure[idx], f, closure) {
            completions(closure, f)
        } else {
            seq![]
        })
    }
}


/// Every value of `partial` follows the local rules given the values before it.
pub open spec fn prefix_consistent(closure: Seq<Formula>, partial: Seq<bool>) -> bool {
    forall|i: int|
        0 <= i < partial.len() ==> #[trigger] spec_consistent_with_partial(
            closure[i],
            partial.take(i + 1),
            closure,
        )
}

proof fn lemma_completions_members(closure: Seq<Formula>, partial: Seq<bool>)
    requires
        partial.len() <= closure.len(),
        prefix_consistent(closure, partial),
    ensures
        forall|v: Seq<bool>| #[trigger]
            completions(closure, partial).contains(v) <==> (v.len() == closure.len() && v.take(
                partial.len() as int,
            ) == partial && spec_consistent(closure, v)),
        forall|v: Seq<bool>|
            #[trigger] completions(closure, partial).contains(v) ==> v.take(partial.len() as int)
                == partial,
        completions(closure, partial).no_duplicates(),
    decreases closure.len() - partial.len(),
{
    let n = closure.len();
    let len = partial.len();
    if len >= n {
        assert forall|v: Seq<bool>| #[trigger]
            completions(closure, partial).contains(v) <==> (v.len() == closure.len() && v.take(
                len as int,
            ) == partial && spec_consistent(closure, v)) by {
            if v.len() == n && v.take(len as int) == partial {
                assert(v =~= partial);
            }
            if v == partial {
                assert(partial.take(len as int) =~= partial);
                assert(seq![partial][0] == v);
            }
            if completions(closure, partial).contains(v) {
                assert(v == partial);
            }
        }
        assert(partial.take(len as int) =~= partial);
    } else {
        let t = partial.push(true);
        let f = partial.push(false);
        let idx = len as int;
        let ok_t = spec_consistent_with_partial(closure[idx], t, closure);
        let ok_f = spec_consistent_with_partial(closure[idx], f, closure);
        let ct = if ok_t {
            completions(closure, t)
        } else {
            seq![]
        };
        let cf = if ok_f {
            completions(closure, f)
        } else {
            seq![]
        };
        assert(completions(closure, partial) == ct + cf);
        if ok_t {
            assert forall|i: int| 0 <= i < t.len() implies #[trigger] spec_consistent_with_partial(
                closure[i],
                t.take(i + 1),
                closure,
            ) by {
                if i < len {
                    assert(t.take(i + 1) =~= partial.take(i + 1));
                } else {
                    assert(t.take(i + 1) =~= t);
                }
            }
            lemma_completions_members(closure, t);
        }
        if ok_f {
            assert forall|i: int| 0 <= i < f.len() implies #[trigger] spec_consistent_with_partial(
                closure[i],
                f.take(i + 1),
                closure,
            ) by {
                if i < len {
                    assert(f.take(i + 1) =~= partial.take(i + 1));
                } else {
                    assert(f.take(i + 1) =~= f);
                }
            }
            lemma_completions_members(closure, f);
        }
        assert forall|v: Seq<bool>| #[trigger] ct.contains(v) implies v.take(idx + 1) == t by {}
        assert forall|v: Seq<bool>| #[trigger] cf.contains(v) implies v.take(idx + 1) == f by {}
        assert forall|v: Seq<bool>| #[trigger]
            completions(closure, partial).contains(v) <==> (v.len() == closure.len() && v.take(
                len as int,
            ) == partial && spec_consistent(closure, v)) by {
            if ct.contains(v) {
                assert(v.take(len as int) =~= t.take(len as int));
                assert(t.take(len as int) =~= partial);
            }
            if cf.contains(v) {
                assert(v.take(len as int) =~= f.take(len as int));
                assert(f.take(len as int) =~= partial);
            }
            if v.len() == closure.len() && v.take(len as int) == partial && spec_consistent(
                closure,
                v,
            ) {
                assert(spec_consistent_with_partial(closure[idx], v.take(idx + 1), closure));
                if v[idx] {
                    assert(v.take(idx + 1) =~= t);
                    assert(v.take(idx + 1) =~= t);
                    assert(ct.contains(v));
                    let k = choose|k: int| 0 <= k < ct.len() && ct[k] == v;
                    assert((ct + cf)[k] == v);
                } else {
                    assert(v.take(idx + 1) =~= f);
                    assert(v.take(idx + 1) =~= f);
                    assert(cf.contains(v));
                    let k = choose|k: int| 0 <= k < cf.len() && cf[k] == v;
                    assert((ct + cf)[ct.len() + k] == v);
                }
            }
            if (ct + cf).contains(v) {
                let k = choose|k: int| 0 <= k < (ct + cf).len() && (ct + cf)[k] == v;
                if k < ct.len() {
                    assert(ct[k] == v);
                } else {
                    assert(cf[k - ct.len()] == v);
                }
            }
        }
        assert forall|v: Seq<bool>| #[trigger]
            completions(closure, partial).contains(v) implies v.take(len as int) == partial by {}
        assert forall|i: int, j: int|
            0 <= i < j < (ct + cf).len() implies (ct + cf)[i] != (ct + cf)[j] by {
            if j < ct.len() {
            } else if i >= ct.len() {
                assert(cf[i - ct.len()] != cf[j - ct.len()]);
            } else {
                assert(ct.contains((ct + cf)[i]));
                assert(cf.contains((ct + cf)[j]));
                assert((ct + cf)[i].take(idx + 1) == t);
                assert((ct + cf)[j].take(idx + 1) == f);
                assert(t[idx] != f[idx]);
            }
        }
    }
}

/// The vectors that `is_consistent` returns are each returned once, and they are exactly the
/// consistent truth vectors over the closure.
pub proof fn lemma_is_consistent_exact(closure: Seq<Formula>)
    ensures
        completions(closure, seq![]).no_duplicates(),
        forall|v: Seq<bool>| #[trigger]
            completions(closure, seq![]).contains(v) <==> (v.len() == closure.len()
                && spec_consistent(closure, v)),
{
    let e: Seq<bool> = seq![];
    lemma_completions_members(closure, e);
    assert forall|v: Seq<bool>| #[trigger]
        completions(closure, e).contains(v) <==> (v.len() == closure.len() && spec_consistent(
            closure,
            v,
        )) by {
        assert(v.take(0) =~= e);
    }
}

/// The position of `formula` in `closure`.
pub fn find_index(closure: &[LTL], formula: &LTL) -> (r: Option<usize>)
    ensures
        r matches Some(i) ==> first_index(fviews(closure@), formula@) == Some(i as int),
        r is None ==> first_index(fviews(closure@), formula@) is None,
{
    proof {
        lemma_first_index(fviews(closure@), formula@);
    }
    let mut i: usize = 0;
    while i < closure.len()
        invariant
            i <= closure.len(),
            forall|j: int| 0 <= j < i ==> closure@[j]@ != formula@,
        decreases closure.len() - i,
    {
        if ltl_equal(&closure[i], formula) {
            proof {
                let fv = fviews(closure@);
                lemma_first_index(fv, formula@);
                match first_index(fv, formula@) {
                    Some(k) => {
                        assert(fv[k] == formula@);
                        assert(fv[i as int] == formula@);
                        if k < i {
                            assert(closure@[k]@ != formula@);
                        }
                    },
                    None => {
                        assert(fv[i as int] == formula@);
                    },
                }
            }
            return Some(i);
        }
        i = i + 1;
    }
    proof {
        let fv = fviews(closure@);
        lemma_first_index(fv, formula@);
        if fv.contains(formula@) {
            let k = choose|k: int| 0 <= k < fv.len() && fv[k] == formula@;
            assert(closure@[k]@ == formula@);
        }
    }
    None
}

/// The truth value that `partial_truth` gives `formula`, if it gives one.
pub fn get_assigned_truth(formula: &LTL, partial_truth: &[bool], closure: &[LTL]) -> (r: Option<
    bool,
>)
    ensures
        r == spec_assigned_truth(formula@, partial_truth@, fviews(closure@)),
{
    proof {
        lemma_view_variant(*formula);
    }
    match formula {
        LTL::Not(inner) => {
            if let Some(i) = find_index(closure, inner) {
                if i < partial_truth.len() {
                    return Some(!partial_truth[i]);
                }
            }
            None
        },
        _ => {
            if let Some(i) = find_index(closure, formula) {
                if i < partial_truth.len() {
                    return Some(partial_truth[i]);
                }
            }
            None
        },
    }
}

/// Whether the last value of `partial_truth`, given to `formula`, follows the local rules.
pub fn is_consistent_with_partial(formula: &LTL, partial_truth: &[bool], closure: &[LTL]) -> (r:
    bool)
    requires
        partial_truth@.len() >= 1,
    ensures
        r == spec_consistent_with_partial(formula@, partial_truth@, fviews(closure@)),
{
    let idx = partial_truth.len() - 1;
    let value = partial_truth[idx];
    proof {
        lemma_view_variant(*formula);
    }
    match formula {
        LTL::True => value,
        LTL::False => !value,
        LTL::And(left, right) => {
            let la = get_assigned_truth(left, partial_truth, closure);
            let ra = get_assigned_truth(right, partial_truth, closure);
            if value {
                !(matches!(la, Some(false)) || matches!(ra, Some(false)))
            } else {
                !(matches!(la, Some(true)) && matches!(ra, Some(true)))
            }
        },
        LTL::Or(left, right) => {
            let la = get_assigned_truth(left, partial_truth, closure);
            let ra = get_assigned_truth(right, partial_truth, closure);
            if value {
                !(matches!(la, Some(false)) && matches!(ra, Some(false)))
            } else {
                !(matches!(la, Some(true)) || matches!(ra, Some(true)))
            }
        },
        LTL::Implies(left, right) => {
            let la = get_assigned_truth(left, partial_truth, closure);
            let ra = get_assigned_truth(right, partial_truth, closure);
            if value {
                !(matches!(la, Some(true)) && matches!(ra, Some(false)))
            } else {
                !(matches!(la, Some(false)) || matches!(ra, Some(true)))
            }
        },
        LTL::Until(left, right) => {
            let la = get_assigned_truth(left, partial_truth, closure);
            let ra = get_assigned_truth(right, partial_truth, closure);
            if value {
                !(matches!(la, Some(false)) && matches!(ra, Some(false)))
            } else {
                !matches!(ra, Some(true))
            }
        },
        LTL::Release(left, right) => {
            let la = get_assigned_truth(left, partial_truth, closure);
            let ra = get_assigned_truth(right, partial_truth, closure);
            if value {
                !matches!(ra, Some(false))
            } else {
                !(matches!(la, Some(true)) && matches!(ra, Some(true)))
            }
        },
        _ => true,
    }
}

fn consistent_sets(closure: &[LTL], partial_truth: &Vec<bool>, out: &mut Vec<Vec<bool>>)
    requires
        partial_truth@.len() <= closure@.len(),
    ensures
        bviews(final(out)@) == bviews(old(out)@) + completions(
            fviews(closure@),
            partial_truth@,
        ),
    decreases closure@.len() - partial_truth@.len(),
{
    let ghost cl = fviews(closure@);
    if partial_truth.len() == closure.len() {
        out.push(partial_truth.clone());
        assert(bviews(out@) =~= bviews(old(out)@) + seq![partial_truth@]);
        return ;
    }
    let index = partial_truth.len();
    let formula = &closure[index];
    assert(cl[index as int] == formula@);
    let mut new_truth = partial_truth.clone();
    new_truth.push(true);
    let ghost mid = bviews(out@);
    if is_consistent_with_partial(formula, &new_truth, closure) {
        consistent_sets(closure, &new_truth, out);
    }
    let ghost mid2 = bviews(out@);
    let mut new_truth2 = partial_truth.clone();
    new_truth2.push(false);
    if is_consistent_with_partial(formula, &new_truth2, closure) {
        consistent_sets(closure, &new_truth2, out);
    }
    assert(new_truth@ == partial_truth@.push(true));
    assert(new_truth2@ == partial_truth@.push(false));
    assert(bviews(out@) =~= bviews(old(out)@) + completions(cl, partial_truth@));
}

/// All truth vectors over the closure that follow the local consistency rules, each once.
pub fn is_consistent(closure: &[LTL]) -> (r: Vec<Vec<bool>>)
    ensures
        bviews(r@) == completions(fviews(closure@), seq![]),
        bviews(r@).no_duplicates(),
        forall|v: Seq<bool>| #[trigger]
            bviews(r@).contains(v) <==> (v.len() == closure@.len() && spec_consistent(
                fviews(closure@),
                v,
            )),
        operands_before(fviews(closure@)) ==> forall|v: Seq<bool>| #[trigger]
            bviews(r@).contains(v) <==> (v.len() == closure@.len() && forall|i: int|
                0 <= i < v.len() ==> #[trigger] direct_rule(fviews(closure@)[i], v[i], v.take(i), fviews(closure@))),
{
    proof {
        let cl = fviews(closure@);
        lemma_is_consistent_exact(cl);
        if operands_before(cl) {
            assert forall|v: Seq<bool>| v.len() == cl.len() implies (#[trigger] spec_consistent(cl, v) <==> forall|i: int|
                0 <= i < v.len() ==> #[trigger] direct_rule(cl[i], v[i], v.take(i), cl)) by {
                assert forall|i: int|
                    #![trigger spec_consistent_with_partial(cl[i], v.take(i + 1), cl)]
                    #![trigger direct_rule(cl[i], v[i], v.take(i), cl)]
                    0 <= i < v.len() implies spec_consistent_with_partial(cl[i], v.take(i + 1), cl)
                    == direct_rule(cl[i], v[i], v.take(i), cl) by {
                    lemma_direct_equiv(cl, v, i);
                }
            }
        }
    }
    let mut out: Vec<Vec<bool>> = Vec::new();
    let empty: Vec<bool> = Vec::new();
    consistent_sets(closure, &empty, &mut out);
    assert(bviews(out@) =~= Seq::<Seq<bool>>::empty() + completions(fviews(closure@), empty@));
    out
}

} // verus!
