use vstd::prelude::*;

use crate::closure::{closure_visit, insert_by_size, sort_by_size, spec_closure, strip_not};
use crate::consistency::{
    first_index, operands_before, operands_before_at, lemma_consistent_direct, lemma_first_index,
    lemma_is_consistent_exact, spec_assigned_truth, spec_consistent, spec_consistent_with_partial,
};
use crate::gnba::{
    accepts_for, acceptance_upto, filter_ids, is_label_atom, label_upto, lemma_filter_ids,
    or_false, spec_acceptance, spec_eval_in_state, spec_label, spec_valid_transition, step_rule,
    GNBA,
};
use crate::ltl_parser::{spec_size, Formula};
use crate::pnf::{
    comparisons_fixed, fnot, in_pnf, is_pnf_atom, lemma_automaton_formula, no_path_quantifier,
    not_rank, pnf_weight, spec_automaton_formula, spec_eliminate, spec_eliminate_all,
    spec_push_inwards, spec_simplify, spec_to_pnf,
};
use crate::semantics::{holds, release, until, PosPred};

verus! {

/// The operands of `h`, each without outer negation, are in `s`.
pub open spec fn operands_present(s: Seq<Formula>, h: Formula) -> bool {
    match h {
        Formula::Not(y) | Formula::Next(y) | Formula::Eventually(y) | Formula::Globally(y)
        | Formula::AllPaths(y) | Formula::SomePath(y) => s.contains(strip_not(*y)),
        Formula::And(a, b) | Formula::Or(a, b) | Formula::Implies(a, b) | Formula::Until(a, b)
        | Formula::Release(a, b) | Formula::WeakUntil(a, b) | Formula::MightyRelease(a, b) => s.contains(
            strip_not(*a),
        ) && s.contains(strip_not(*b)),
        _ => true,
    }
}

/// Every formula of `s` has its operands, without outer negation, in `s`.
pub open spec fn operand_closed(s: Seq<Formula>) -> bool {
    forall|h: Formula| #[trigger] s.contains(h) ==> operands_present(s, h)
}

proof fn lemma_strip_size(f: Formula)
    ensures
        spec_size(strip_not(f)) <= spec_size(f),
{
}

proof fn lemma_present_mono(s: Seq<Formula>, t: Seq<Formula>, h: Formula)
    requires
        operands_present(s, h),
        forall|x: Formula| #[trigger] s.contains(x) ==> t.contains(x),
    ensures
        operands_present(t, h),
{
}

/// The visit keeps what it was given, adds `f` without outer negation, and leaves every
/// formula whose operands it has not been told to wait for with its operands present.
proof fn lemma_visit_closed(f: Formula, acc: Seq<Formula>, pending: Set<Formula>)
    requires
        forall|h: Formula| #[trigger] acc.contains(h) && !pending.contains(h) ==> operands_present(acc, h),
        forall|h: Formula| #[trigger] pending.contains(h) ==> spec_size(h) > spec_size(f),
    ensures
        forall|x: Formula| #[trigger] acc.contains(x) ==> closure_visit(f, acc).contains(x),
        closure_visit(f, acc).contains(strip_not(f)),
        forall|h: Formula|
            #[trigger] closure_visit(f, acc).contains(h) && !pending.contains(h) ==> operands_present(
                closure_visit(f, acc),
                h,
            ),
    decreases f,
{
    let g = strip_not(f);
    lemma_strip_size(f);
    if !acc.contains(g) {
        let acc1 = acc.push(g);
        let p1 = pending.insert(g);
        assert forall|x: Formula| #[trigger] acc.contains(x) implies acc1.contains(x) by {
            let k = choose|k: int| 0 <= k < acc.len() && acc[k] == x;
            assert(acc1[k] == x);
        }
        assert(acc1[acc.len() as int] == g);
        assert(acc1.contains(g));
        assert forall|h: Formula| #[trigger] acc1.contains(h) && !p1.contains(h) implies operands_present(acc1, h) by {
            let k = choose|k: int| 0 <= k < acc1.len() && acc1[k] == h;
            if k < acc.len() {
                assert(acc.contains(h));
                lemma_present_mono(acc, acc1, h);
            }
        }
        let r = closure_visit(f, acc);
        match f {
            Formula::Not(x) => match *x {
                Formula::Not(y) => {
                    lemma_visit_closed(*y, acc1, p1);
                    assert(r == closure_visit(*y, acc1));
                },
                Formula::And(a, b) | Formula::Or(a, b) | Formula::Implies(a, b) | Formula::Until(
                    a,
                    b,
                ) | Formula::Release(a, b) | Formula::WeakUntil(a, b) | Formula::MightyRelease(
                    a,
                    b,
                ) => {
                    lemma_visit_closed(*a, acc1, p1);
                    let acc2 = closure_visit(*a, acc1);
                    assert(acc2.contains(g));
                    lemma_visit_closed(*b, acc2, p1);
                    assert(r == closure_visit(*b, acc2));
                },
                Formula::Next(y) | Formula::Eventually(y) | Formula::Globally(y)
                | Formula::AllPaths(y) | Formula::SomePath(y) => {
                    lemma_visit_closed(*y, acc1, p1);
                    assert(r == closure_visit(*y, acc1));
                },
                _ => {
                    assert(r == acc1);
                },
            },
            Formula::And(a, b) | Formula::Or(a, b) | Formula::Implies(a, b) | Formula::Until(a, b)
            | Formula::Release(a, b) | Formula::WeakUntil(a, b) | Formula::MightyRelease(a, b) => {
                lemma_visit_closed(*a, acc1, p1);
                let acc2 = closure_visit(*a, acc1);
                    assert(acc2.contains(g));
                lemma_visit_closed(*b, acc2, p1);
                assert(r == closure_visit(*b, acc2));
            },
            Formula::Next(y) | Formula::Eventually(y) | Formula::Globally(y) | Formula::AllPaths(y)
            | Formula::SomePath(y) => {
                lemma_visit_closed(*y, acc1, p1);
                assert(r == closure_visit(*y, acc1));
            },
            _ => {
                assert(r == acc1);
            },
        }
        assert(r.contains(g));
        assert(operands_present(r, g));
        assert forall|h: Formula| #[trigger] r.contains(h) && !pending.contains(h) implies operands_present(r, h) by {
            if h != g {
                assert(!p1.contains(h));
            }
        }
    }
}

proof fn lemma_insert_contains(s: Seq<Formula>, x: Formula)
    ensures
        forall|y: Formula| #[trigger] insert_by_size(s, x).contains(y) <==> (s.contains(y) || y == x),
    decreases s.len(),
{
    if s.len() == 0 {
        assert(insert_by_size(s, x) =~= seq![x]);
        assert(insert_by_size(s, x)[0] == x);
    } else if spec_size(s.last()) <= spec_size(x) {
        let r = s.push(x);
        assert forall|y: Formula| #[trigger] r.contains(y) <==> (s.contains(y) || y == x) by {
            if s.contains(y) {
                let k = choose|k: int| 0 <= k < s.len() && s[k] == y;
                assert(r[k] == y);
            }
            if y == x {
                assert(r[s.len() as int] == y);
            }
            if r.contains(y) {
                let k = choose|k: int| 0 <= k < r.len() && r[k] == y;
                if k < s.len() {
                    assert(s[k] == y);
                }
            }
        }
    } else {
        let t = s.drop_last();
        lemma_insert_contains(t, x);
        let q = insert_by_size(t, x);
        let r = q.push(s.last());
        assert forall|y: Formula| #[trigger] r.contains(y) <==> (s.contains(y) || y == x) by {
            if r.contains(y) {
                let k = choose|k: int| 0 <= k < r.len() && r[k] == y;
                if k < q.len() {
                    assert(q[k] == y);
                    assert(q.contains(y));
                    if t.contains(y) {
                        let j = choose|j: int| 0 <= j < t.len() && t[j] == y;
                        assert(s[j] == y);
                    }
                } else {
                    assert(s[s.len() - 1] == y);
                }
            }
            if s.contains(y) {
                let k = choose|k: int| 0 <= k < s.len() && s[k] == y;
                if k < s.len() - 1 {
                    assert(t[k] == y);
                    assert(q.contains(y));
                    let j = choose|j: int| 0 <= j < q.len() && q[j] == y;
                    assert(r[j] == y);
                } else {
                    assert(r[q.len() as int] == y);
                }
            }
            if y == x {
                assert(q.contains(y));
                let j = choose|j: int| 0 <= j < q.len() && q[j] == y;
                assert(r[j] == y);
            }
        }
    }
}

proof fn lemma_sort_contains(s: Seq<Formula>)
    ensures
        forall|y: Formula| #[trigger] sort_by_size(s).contains(y) <==> s.contains(y),
    decreases s.len(),
{
    if s.len() > 0 {
        let t = s.drop_last();
        lemma_sort_contains(t);
        lemma_insert_contains(sort_by_size(t), s.last());
        assert forall|y: Formula| #[trigger] sort_by_size(s).contains(y) <==> s.contains(y) by {
            if s.contains(y) {
                let k = choose|k: int| 0 <= k < s.len() && s[k] == y;
                if k < s.len() - 1 {
                    assert(t[k] == y);
                }
            }
            if t.contains(y) {
                let k = choose|k: int| 0 <= k < t.len() && t[k] == y;
                assert(s[k] == y);
            }
            if y == s.last() {
                assert(s[s.len() - 1] == y);
            }
        }
    }
}

/// The closure of `f` holds `f` without outer negation, and the operands of each of its
/// formulas, each without outer negation.
pub proof fn lemma_closure_closed(f: Formula)
    ensures
        spec_closure(f).contains(strip_not(f)),
        operand_closed(spec_closure(f)),
{
    let e: Seq<Formula> = seq![];
    lemma_visit_closed(f, e, Set::empty());
    let v = closure_visit(f, e);
    lemma_sort_contains(v);
    let s = spec_closure(f);
    assert forall|h: Formula| #[trigger] s.contains(h) implies operands_present(s, h) by {
        assert(v.contains(h));
        assert(operands_present(v, h));
        lemma_present_mono(v, s, h);
    }
}

/// The truth of each formula of `cl` at position `i` of the trace `w`.
pub open spec fn trace_vector(cl: Seq<Formula>, w: spec_fn(nat, Formula) -> bool, i: nat) -> Seq<
    bool,
> {
    Seq::new(cl.len(), |k: int| holds(cl[k], w)(i))
}

/// The values of the label atoms of `cl` at position `i` of the trace `w`, in closure order.
pub open spec fn trace_label(cl: Seq<Formula>, w: spec_fn(nat, Formula) -> bool, i: nat) -> Seq<
    bool,
> {
    spec_label(Seq::new(cl.len(), |k: int| w(i, cl[k])), cl)
}

/// `run` is a run of `g` on the trace `w`: it starts in an initial state, moves along
/// transitions, and the label of its state at each position is the label of the trace there.
pub open spec fn is_run(g: GNBA, w: spec_fn(nat, Formula) -> bool, run: spec_fn(nat) -> nat) -> bool {
    &&& g.initial_states@.contains(run(0) as usize)
    &&& forall|i: nat| #[trigger] run(i) < g.states@.len()
    &&& forall|i: nat| g.succ_view(run(i) as int).contains(#[trigger] run(i + 1) as usize)
    &&& forall|i: nat|
        spec_label(g.vectors()[#[trigger] run(i) as int], g.closure_view()) == trace_label(
            g.closure_view(),
            w,
            i,
        )
}

/// `run` is in `set` at some position from `i` on.
pub open spec fn visits_after(set: Seq<usize>, run: spec_fn(nat) -> nat, i: nat) -> bool {
    exists|j: nat| i <= j && #[trigger] set.contains(run(j) as usize)
}

/// `run` visits every acceptance set of `g` infinitely often.
pub open spec fn is_accepting(g: GNBA, run: spec_fn(nat) -> nat) -> bool {
    forall|a: int, i: nat|
        0 <= a < g.acceptance_view().len() ==> #[trigger] visits_after(g.acceptance_view()[a], run, i)
}

/// Where the trace vector gives `f` a value, it is the truth of `f`; it gives one wherever
/// `f` without outer negation is in `cl`.
proof fn lemma_eval_exact(cl: Seq<Formula>, w: spec_fn(nat, Formula) -> bool, i: nat, f: Formula)
    ensures
        spec_eval_in_state(trace_vector(cl, w, i), cl, f) matches Some(b) ==> b == holds(f, w)(i),
        cl.contains(strip_not(f)) ==> spec_eval_in_state(trace_vector(cl, w, i), cl, f) is Some,
{
    lemma_first_index(cl, f);
    match f {
        Formula::Not(inner) => {
            lemma_first_index(cl, *inner);
        },
        _ => {},
    }
}

proof fn lemma_assigned_exact(
    cl: Seq<Formula>,
    w: spec_fn(nat, Formula) -> bool,
    i: nat,
    n: int,
    f: Formula,
)
    requires
        0 <= n <= cl.len(),
    ensures
        spec_assigned_truth(f, trace_vector(cl, w, i).take(n), cl) matches Some(b) ==> b == holds(
            f,
            w,
        )(i),
{
    match f {
        Formula::Not(inner) => {
            lemma_first_index(cl, *inner);
        },
        _ => {
            lemma_first_index(cl, f);
        },
    }
}

/// `p U q` holds now when `q` does, or `p` does and `p U q` holds next.
pub proof fn lemma_until_step(p: PosPred, q: PosPred, i: nat)
    ensures
        until(p, q)(i) == (q(i) || (p(i) && until(p, q)(i + 1))),
{
    if until(p, q)(i) {
        let k = choose|k: nat| i <= k && #[trigger] q(k) && forall|j: nat| i <= j < k ==> #[trigger] p(j);
        if k > i {
            assert(p(i));
            assert(q(k));
            assert(until(p, q)(i + 1));
        }
    }
    if q(i) {
        assert(until(p, q)(i));
    }
    if p(i) && until(p, q)(i + 1) {
        let k = choose|k: nat| i + 1 <= k && #[trigger] q(k) && forall|j: nat| i + 1 <= j < k ==> #[trigger] p(j);
        assert forall|j: nat| i <= j < k implies #[trigger] p(j) by {
            if j > i {
                assert(i + 1 <= j < k);
            }
        }
        assert(until(p, q)(i));
    }
}

/// `p R q` holds now when `q` does, and `p` does or `p R q` holds next.
pub proof fn lemma_release_step(p: PosPred, q: PosPred, i: nat)
    ensures
        release(p, q)(i) == (q(i) && (p(i) || release(p, q)(i + 1))),
{
    if release(p, q)(i) {
        assert(q(i) || exists|j: nat| i <= j < i && #[trigger] p(j));
        if !p(i) {
            assert forall|k: nat| i + 1 <= k implies #[trigger] q(k) || exists|j: nat| i + 1 <= j < k && #[trigger] p(j) by {
                assert(q(k) || exists|j: nat| i <= j < k && #[trigger] p(j));
                if !q(k) {
                    let j = choose|j: nat| i <= j < k && #[trigger] p(j);
                    assert(j != i);
                }
            }
        }
    }
    if q(i) && p(i) {
        assert forall|k: nat| i <= k implies #[trigger] q(k) || exists|j: nat| i <= j < k && #[trigger] p(j) by {
            if k > i {
                assert(p(i));
            }
        }
    }
    if q(i) && release(p, q)(i + 1) {
        assert forall|k: nat| i <= k implies #[trigger] q(k) || exists|j: nat| i <= j < k && #[trigger] p(j) by {
            if k > i {
                assert(q(k) || exists|j: nat| i + 1 <= j < k && #[trigger] p(j));
            }
        }
    }
}

/// At every position of every trace, the truth values of any sequence of formulas follow the
/// local consistency rules.
pub proof fn lemma_trace_vector_consistent(cl: Seq<Formula>, w: spec_fn(nat, Formula) -> bool, i: nat)
    ensures
        spec_consistent(cl, trace_vector(cl, w, i)),
{
    let v = trace_vector(cl, w, i);
    assert forall|k: int| 0 <= k < v.len() implies #[trigger] spec_consistent_with_partial(
        cl[k],
        v.take(k + 1),
        cl,
    ) by {
        let p = v.take(k + 1);
        assert(p.last() == holds(cl[k], w)(i));
        match cl[k] {
            Formula::And(l, r) | Formula::Or(l, r) | Formula::Implies(l, r) => {
                lemma_assigned_exact(cl, w, i, k + 1, *l);
                lemma_assigned_exact(cl, w, i, k + 1, *r);
            },
            Formula::Until(l, r) => {
                lemma_assigned_exact(cl, w, i, k + 1, *l);
                lemma_assigned_exact(cl, w, i, k + 1, *r);
                lemma_until_step(holds(*l, w), holds(*r, w), i);
            },
            Formula::Release(l, r) => {
                lemma_assigned_exact(cl, w, i, k + 1, *l);
                lemma_assigned_exact(cl, w, i, k + 1, *r);
                lemma_release_step(holds(*l, w), holds(*r, w), i);
            },
            _ => {},
        }
    }
}

/// Consecutive trace vectors over an operand-closed sequence of formulas are linked by a
/// transition.
proof fn lemma_trace_step(cl: Seq<Formula>, w: spec_fn(nat, Formula) -> bool, i: nat)
    requires
        operand_closed(cl),
    ensures
        spec_valid_transition(trace_vector(cl, w, i), trace_vector(cl, w, i + 1), cl),
{
    let from = trace_vector(cl, w, i);
    let to = trace_vector(cl, w, i + 1);
    assert forall|idx: int| 0 <= idx < cl.len() implies #[trigger] step_rule(from, to, cl, idx) by {
        let f = cl[idx];
        assert(cl.contains(f));
        assert(operands_present(cl, f));
        assert(from[idx] == holds(f, w)(i));
        match f {
            Formula::Next(a) => {
                lemma_eval_exact(cl, w, i + 1, *a);
            },
            Formula::Until(l, r) => {
                lemma_eval_exact(cl, w, i, *l);
                lemma_eval_exact(cl, w, i, *r);
                lemma_eval_exact(cl, w, i + 1, f);
                lemma_until_step(holds(*l, w), holds(*r, w), i);
            },
            Formula::Release(l, r) => {
                lemma_eval_exact(cl, w, i, *l);
                lemma_eval_exact(cl, w, i, *r);
                lemma_eval_exact(cl, w, i + 1, f);
                lemma_release_step(holds(*l, w), holds(*r, w), i);
            },
            _ => {},
        }
    }
}

/// Two vectors that agree on the label atoms of `cl` have the same label.
pub(crate) proof fn lemma_label_agree(v1: Seq<bool>, v2: Seq<bool>, cl: Seq<Formula>, n: nat)
    requires
        n <= cl.len(),
        forall|k: int| 0 <= k < n && is_label_atom(#[trigger] cl[k]) ==> v1[k] == v2[k],
    ensures
        label_upto(v1, cl, n) == label_upto(v2, cl, n),
    decreases n,
{
    if n > 0 {
        lemma_label_agree(v1, v2, cl, (n - 1) as nat);
        if is_label_atom(cl[n - 1]) {
            assert(v1[n - 1] == v2[n - 1]);
        }
    }
}

/// The label of a trace vector is the label of the trace.
proof fn lemma_trace_vector_label(cl: Seq<Formula>, w: spec_fn(nat, Formula) -> bool, i: nat)
    ensures
        spec_label(trace_vector(cl, w, i), cl) == trace_label(cl, w, i),
{
    let v1 = trace_vector(cl, w, i);
    let v2 = Seq::new(cl.len(), |k: int| w(i, cl[k]));
    assert forall|k: int| 0 <= k < cl.len() && is_label_atom(#[trigger] cl[k]) implies v1[k] == v2[k] by {
        match cl[k] {
            Formula::Var(_) | Formula::Fireable(_) | Formula::TokenCount(_) | Formula::LessEqual(_, _)
            | Formula::GreaterEqual(_, _) | Formula::Greater(_, _) | Formula::Less(_, _) => {},
            _ => {},
        }
    }
    lemma_label_agree(v1, v2, cl, cl.len());
}

/// `x` is the set of states that accept for a `U` formula among the first `n` of `cl`.
pub open spec fn until_set(vs: Seq<Seq<bool>>, cl: Seq<Formula>, n: int, x: Seq<usize>) -> bool {
    exists|idx: int|
        0 <= idx < n && (#[trigger] cl[idx]) is Until && x == filter_ids(
            vs.len(),
            |s: int| accepts_for(vs[s], cl, idx),
        )
}

/// Each acceptance set among the first `n` closure formulas is the set of states that accept
/// for one of its `U` formulas.
proof fn lemma_acceptance_sets(vs: Seq<Seq<bool>>, cl: Seq<Formula>, n: nat)
    requires
        n <= cl.len(),
    ensures
        forall|a: int|
            0 <= a < acceptance_upto(vs, cl, n).len() ==> until_set(
                vs,
                cl,
                n as int,
                #[trigger] acceptance_upto(vs, cl, n)[a],
            ),
    decreases n,
{
    if n > 0 {
        lemma_acceptance_sets(vs, cl, (n - 1) as nat);
        let prev = acceptance_upto(vs, cl, (n - 1) as nat);
        let cur = acceptance_upto(vs, cl, n);
        assert forall|a: int| 0 <= a < cur.len() implies until_set(vs, cl, n as int, #[trigger] cur[a]) by {
            if a < prev.len() {
                assert(cur[a] == prev[a]);
                assert(until_set(vs, cl, n - 1, prev[a]));
                let idx = choose|idx: int|
                    0 <= idx < n - 1 && (#[trigger] cl[idx]) is Until && prev[a] == filter_ids(
                        vs.len(),
                        |s: int| accepts_for(vs[s], cl, idx),
                    );
                assert(cur[a] == filter_ids(vs.len(), |s: int| accepts_for(vs[s], cl, idx)));
            } else {
                assert(cl[n - 1] is Until);
                assert(cur[a] == filter_ids(vs.len(), |s: int| accepts_for(vs[s], cl, n - 1)));
            }
        }
    }
}

/// A trace vector accepts for a `U` formula of an operand-closed sequence exactly where the
/// formula fails or its right operand holds.
proof fn lemma_trace_accepts(cl: Seq<Formula>, w: spec_fn(nat, Formula) -> bool, j: nat, idx: int)
    requires
        operand_closed(cl),
        0 <= idx < cl.len(),
        cl[idx] is Until,
    ensures
        accepts_for(trace_vector(cl, w, j), cl, idx) == (!holds(cl[idx], w)(j) || holds(
            *cl[idx]->Until_1,
            w,
        )(j)),
{
    let f = cl[idx];
    assert(cl.contains(f));
    assert(operands_present(cl, f));
    let right = f->Until_1;
    match *right {
        Formula::Not(inner) => {
            lemma_first_index(cl, *inner);
        },
        _ => {
            lemma_first_index(cl, *right);
        },
    }
}

/// The state of `g` whose vector is the trace vector at position `i`.
pub open spec fn trace_state(g: GNBA, w: spec_fn(nat, Formula) -> bool, i: nat) -> nat {
    choose|s: nat| s < g.vectors().len() && g.vectors()[s as int] == trace_vector(g.closure_view(), w, i)
}

/// The run through the trace states.
pub open spec fn trace_run(g: GNBA, w: spec_fn(nat, Formula) -> bool) -> spec_fn(nat) -> nat {
    |i: nat| trace_state(g, w, i)
}

/// Completeness of the automaton: every trace whose first position satisfies `f` has an
/// accepting run of the GNBA built for `f`, the run through the states that hold, at each
/// position, exactly the closure formulas true there.
pub proof fn lemma_gnba_complete(g: GNBA, f: Formula, w: spec_fn(nat, Formula) -> bool)
    requires
        g.built_from(f),
        comparisons_fixed(f),
        holds(f, w)(0),
    ensures
        is_run(g, w, trace_run(g, w)),
        is_accepting(g, trace_run(g, w)),
{
    let pnf = spec_automaton_formula(f);
    let cl = g.closure_view();
    let vs = g.vectors();
    lemma_automaton_formula(f);
    assert(holds(pnf, w) == holds(f, w));
    lemma_closure_closed(pnf);
    lemma_is_consistent_exact(cl);
    assert(vs.len() == g.states@.len());
    assert(g.states.len() == g.states@.len());
    let run = trace_run(g, w);
    assert forall|i: nat| #[trigger] run(i) < g.states@.len() && vs[run(i) as int] == trace_vector(cl, w, i) by {
        lemma_trace_vector_consistent(cl, w, i);
        assert(vs.contains(trace_vector(cl, w, i)));
        let k = choose|k: int| 0 <= k < vs.len() && vs[k] == trace_vector(cl, w, i);
        assert((k as nat) < vs.len() && vs[(k as nat) as int] == trace_vector(cl, w, i));
    }
    let pi = |s: int| spec_eval_in_state(vs[s], cl, pnf) == Some(true);
    lemma_filter_ids(vs.len(), pi);
    lemma_eval_exact(cl, w, 0, pnf);
    assert(run(0) < vs.len());
    assert(pi(run(0) as int));
    assert(g.initial_states@.contains(run(0) as usize));
    assert forall|i: nat| g.succ_view(run(i) as int).contains(#[trigger] run(i + 1) as usize) by {
        let s = run(i) as int;
        let t = run(i + 1) as int;
        assert(run(i) < g.states@.len());
        assert(run(i + 1) < g.states@.len());
        lemma_trace_step(cl, w, i);
        let pt = |u: int| spec_valid_transition(vs[s], vs[u], cl);
        lemma_filter_ids(vs.len(), pt);
        assert(g.succ_view(s) == filter_ids(vs.len(), pt));
        assert(pt(t));
    }
    assert forall|i: nat| spec_label(vs[#[trigger] run(i) as int], cl) == trace_label(cl, w, i) by {
        assert(run(i) < g.states@.len());
        lemma_trace_vector_label(cl, w, i);
    }
    assert forall|a: int, i: nat|
        0 <= a < g.acceptance_view().len() implies #[trigger] visits_after(g.acceptance_view()[a], run, i) by {
        let sets = acceptance_upto(vs, cl, cl.len());
        assert(g.acceptance_view() == spec_acceptance(vs, cl));
        if sets.len() == 0 {
            let pall = |s: int| true;
            lemma_filter_ids(vs.len(), pall);
            assert(run(i) < g.states@.len());
            assert(g.acceptance_view()[a] == filter_ids(vs.len(), pall));
            assert(g.acceptance_view()[a].contains(run(i) as usize));
        } else {
            lemma_acceptance_sets(vs, cl, cl.len());
            assert(g.acceptance_view()[a] == sets[a]);
            assert(until_set(vs, cl, cl.len() as int, sets[a]));
            let idx = choose|idx: int|
                0 <= idx < cl.len() && (#[trigger] cl[idx]) is Until && sets[a] == filter_ids(
                    vs.len(),
                    |s: int| accepts_for(vs[s], cl, idx),
                );
            let pa = |s: int| accepts_for(vs[s], cl, idx);
            lemma_filter_ids(vs.len(), pa);
            let uf = cl[idx];
            let hl = holds(*uf->Until_0, w);
            let hr = holds(*uf->Until_1, w);
            assert(holds(uf, w) == until(hl, hr));
            if holds(uf, w)(i) {
                let k = choose|k: nat| i <= k && #[trigger] hr(k) && forall|j: nat| i <= j < k ==> #[trigger] hl(j);
                lemma_trace_accepts(cl, w, k, idx);
                assert(run(k) < g.states@.len());
                assert(pa(run(k) as int));
                assert(sets[a].contains(run(k) as usize));
                assert(g.acceptance_view()[a].contains(run(k) as usize));
            } else {
                lemma_trace_accepts(cl, w, i, idx);
                assert(run(i) < g.states@.len());
                assert(pa(run(i) as int));
                assert(sets[a].contains(run(i) as usize));
                assert(g.acceptance_view()[a].contains(run(i) as usize));
            }
        }
    }
    assert(is_accepting(g, run));
}

/// `f` is built from atoms other than bare numbers, negated atoms, `&`, `|`, `X`, `F`, `U`
/// and `M`: a formula whose value the states of an accepting run give exactly, not only where it
/// is true.
pub open spec fn plain(f: Formula) -> bool
    decreases f,
{
    match f {
        Formula::Number(_) => false,
        Formula::Not(a) => is_pnf_atom(*a) && !(*a is Number),
        Formula::And(a, b) | Formula::Or(a, b) | Formula::Until(a, b) | Formula::MightyRelease(a, b) =>
            plain(*a) && plain(*b),
        Formula::Next(a) | Formula::Eventually(a) => plain(*a),
        Formula::LessEqual(a, b) | Formula::GreaterEqual(a, b) | Formula::Greater(a, b)
        | Formula::Less(a, b) => spec_push_inwards(*a) == *a && spec_push_inwards(*b) == *b,
        Formula::Implies(_, _) | Formula::Release(_, _) | Formula::Globally(_) | Formula::WeakUntil(
            _,
            _,
        ) | Formula::AllPaths(_) | Formula::SomePath(_) => false,
        _ => true,
    }
}

/// `f` holds no bare number, and the left operand of each of its implications is plain.
pub open spec fn automaton_ready(f: Formula) -> bool
    decreases f,
{
    match f {
        Formula::Number(_) => false,
        Formula::Implies(a, b) => plain(*a) && automaton_ready(*a) && automaton_ready(*b),
        Formula::Not(a) | Formula::Next(a) | Formula::Eventually(a) | Formula::Globally(a)
        | Formula::AllPaths(a) | Formula::SomePath(a) => automaton_ready(*a),
        Formula::And(a, b) | Formula::Or(a, b) | Formula::Until(a, b) | Formula::Release(a, b)
        | Formula::WeakUntil(a, b) | Formula::MightyRelease(a, b) => automaton_ready(*a)
            && automaton_ready(*b),
        _ => true,
    }
}

/// `f` holds no bare number and no path quantifier, and the left operand of each of its
/// implications is plain once its negations are pushed inwards.
pub open spec fn entry_ready(f: Formula) -> bool
    decreases f,
{
    match f {
        Formula::Number(_) | Formula::AllPaths(_) | Formula::SomePath(_) => false,
        Formula::Implies(a, b) => plain(spec_push_inwards(*a)) && entry_ready(*a) && entry_ready(*b),
        Formula::Not(a) | Formula::Next(a) | Formula::Eventually(a) | Formula::Globally(a) => entry_ready(*a),
        Formula::And(a, b) | Formula::Or(a, b) | Formula::Until(a, b) | Formula::Release(a, b)
        | Formula::WeakUntil(a, b) | Formula::MightyRelease(a, b) => entry_ready(*a) && entry_ready(*b),
        _ => true,
    }
}

/// A closure formula of a formula in positive normal form: itself in positive normal form,
/// not a negation, with no bare number, and with a plain left operand to each implication.
pub open spec fn pnf_member(h: Formula) -> bool {
    in_pnf(h) && !(h is Not) && automaton_ready(h)
}

proof fn lemma_visit_shape(f: Formula, acc: Seq<Formula>)
    requires
        in_pnf(f),
        automaton_ready(f),
        forall|h: Formula| #[trigger] acc.contains(h) ==> pnf_member(h),
    ensures
        forall|h: Formula| #[trigger] closure_visit(f, acc).contains(h) ==> pnf_member(h),
    decreases f,
{
    let g = strip_not(f);
    if !acc.contains(g) {
        let acc1 = acc.push(g);
        assert(pnf_member(g));
        assert forall|h: Formula| #[trigger] acc1.contains(h) implies pnf_member(h) by {
            let k = choose|k: int| 0 <= k < acc1.len() && acc1[k] == h;
            if k < acc.len() {
                assert(acc.contains(h));
            }
        }
        let r = closure_visit(f, acc);
        match f {
            Formula::Not(x) => {
                assert(r == acc1);
            },
            Formula::And(a, b) | Formula::Or(a, b) | Formula::Implies(a, b) | Formula::Until(a, b)
            | Formula::Release(a, b) => {
                lemma_visit_shape(*a, acc1);
                let acc2 = closure_visit(*a, acc1);
                lemma_visit_shape(*b, acc2);
                assert(r == closure_visit(*b, acc2));
            },
            Formula::Next(y) => {
                lemma_visit_shape(*y, acc1);
                assert(r == closure_visit(*y, acc1));
            },
            _ => {
                assert(r == acc1);
            },
        }
    }
}

/// Sorted by size, smallest first.
pub open spec fn size_sorted(s: Seq<Formula>) -> bool {
    forall|i: int, j: int| 0 <= i < j < s.len() ==> spec_size(#[trigger] s[i]) <= spec_size(#[trigger] s[j])
}

proof fn lemma_insert_sorted(s: Seq<Formula>, x: Formula)
    requires
        size_sorted(s),
    ensures
        size_sorted(insert_by_size(s, x)),
    decreases s.len(),
{
    if s.len() == 0 {
        assert(insert_by_size(s, x) =~= seq![x]);
    } else if spec_size(s.last()) <= spec_size(x) {
        let r = s.push(x);
        assert forall|i: int, j: int| 0 <= i < j < r.len() implies spec_size(#[trigger] r[i]) <= spec_size(#[trigger] r[j]) by {
            if j == s.len() {
                assert(spec_size(s[i]) <= spec_size(s[s.len() - 1]));
            } else {
                assert(r[i] == s[i] && r[j] == s[j]);
            }
        }
    } else {
        let t = s.drop_last();
        assert(size_sorted(t)) by {
            assert forall|i: int, j: int| 0 <= i < j < t.len() implies spec_size(#[trigger] t[i]) <= spec_size(#[trigger] t[j]) by {
                assert(t[i] == s[i] && t[j] == s[j]);
            }
        }
        lemma_insert_sorted(t, x);
        lemma_insert_contains(t, x);
        let q = insert_by_size(t, x);
        let r = q.push(s.last());
        assert forall|i: int, j: int| 0 <= i < j < r.len() implies spec_size(#[trigger] r[i]) <= spec_size(#[trigger] r[j]) by {
            if j == q.len() {
                assert(q.contains(q[i]));
                if t.contains(q[i]) {
                    let k = choose|k: int| 0 <= k < t.len() && t[k] == q[i];
                    assert(s[k] == q[i]);
                    assert(spec_size(s[k]) <= spec_size(s[s.len() - 1]));
                }
            } else {
                assert(r[i] == q[i] && r[j] == q[j]);
            }
        }
    }
}

proof fn lemma_sort_sorted(s: Seq<Formula>)
    ensures
        size_sorted(sort_by_size(s)),
    decreases s.len(),
{
    if s.len() > 0 {
        lemma_sort_sorted(s.drop_last());
        lemma_insert_sorted(sort_by_size(s.drop_last()), s.last());
    }
}

/// The closure of a formula in positive normal form with no bare number and plain left
/// operands to its implications is sorted by size, and each of its formulas is in positive
/// normal form, no negation, with no bare number and plain left operands to its implications.
pub proof fn lemma_closure_shape(f: Formula)
    requires
        in_pnf(f),
        automaton_ready(f),
    ensures
        size_sorted(spec_closure(f)),
        forall|h: Formula| #[trigger] spec_closure(f).contains(h) ==> pnf_member(h),
{
    let e: Seq<Formula> = seq![];
    lemma_visit_shape(f, e);
    lemma_sort_contains(closure_visit(f, e));
    lemma_sort_sorted(closure_visit(f, e));
}

/// Two vectors with the same label agree on the label atoms.
proof fn lemma_label_exact(v1: Seq<bool>, v2: Seq<bool>, cl: Seq<Formula>, n: nat)
    requires
        n <= cl.len(),
        label_upto(v1, cl, n) == label_upto(v2, cl, n),
    ensures
        forall|k: int| 0 <= k < n && is_label_atom(#[trigger] cl[k]) ==> v1[k] == v2[k],
    decreases n,
{
    if n > 0 {
        let p1 = label_upto(v1, cl, (n - 1) as nat);
        let p2 = label_upto(v2, cl, (n - 1) as nat);
        if is_label_atom(cl[n - 1]) {
            assert(p1.push(v1[n - 1]) == p2.push(v2[n - 1]));
            assert(p1 =~= p1.push(v1[n - 1]).drop_last());
            assert(p2 =~= p2.push(v2[n - 1]).drop_last());
            assert(p1.push(v1[n - 1]).last() == v1[n - 1]);
            assert(p2.push(v2[n - 1]).last() == v2[n - 1]);
        }
        lemma_label_exact(v1, v2, cl, (n - 1) as nat);
    }
}

/// The acceptance set of the `U` formula at `idx`.
proof fn lemma_acceptance_has(vs: Seq<Seq<bool>>, cl: Seq<Formula>, n: nat, idx: int) -> (a: int)
    requires
        0 <= idx < n <= cl.len(),
        cl[idx] is Until,
    ensures
        0 <= a < acceptance_upto(vs, cl, n).len(),
        acceptance_upto(vs, cl, n)[a] == filter_ids(vs.len(), |s: int| accepts_for(vs[s], cl, idx)),
    decreases n,
{
    let prev = acceptance_upto(vs, cl, (n - 1) as nat);
    if idx == n - 1 {
        prev.len() as int
    } else {
        let a = lemma_acceptance_has(vs, cl, (n - 1) as nat, idx);
        if cl[n - 1] is Until {
            assert(acceptance_upto(vs, cl, n)[a] == prev[a]);
        }
        a
    }
}

/// What the proof of the automaton's soundness works with: the closure is sorted by size,
/// closed under operands and made of formulas in positive normal form with no negation,
/// implication or bare number at the top; the states are the consistent vectors; and `run`
/// is an accepting run on `w`.
pub open spec fn sound_setting(g: GNBA, w: spec_fn(nat, Formula) -> bool, run: spec_fn(nat) -> nat) -> bool {
    let cl = g.closure_view();
    let vs = g.vectors();
    &&& size_sorted(cl)
    &&& cl.no_duplicates()
    &&& forall|h: Formula| #[trigger] cl.contains(h) ==> pnf_member(h)
    &&& operand_closed(cl)
    &&& forall|s: int|
        0 <= s < vs.len() ==> #[trigger] spec_consistent(cl, vs[s]) && vs[s].len() == cl.len()
    &&& vs.len() == g.states@.len()
    &&& vs.len() <= usize::MAX
    &&& forall|s: int|
        0 <= s < vs.len() ==> #[trigger] g.succ_view(s) == filter_ids(
            vs.len(),
            |t: int| spec_valid_transition(vs[s], vs[t], cl),
        )
    &&& g.acceptance_view() == spec_acceptance(vs, cl)
    &&& is_run(g, w, run)
    &&& is_accepting(g, run)
}

/// The vector of the state of `run` at position `i`.
pub open spec fn run_vector(g: GNBA, run: spec_fn(nat) -> nat, i: nat) -> Seq<bool> {
    g.vectors()[run(i) as int]
}

proof fn lemma_run_step(g: GNBA, w: spec_fn(nat, Formula) -> bool, run: spec_fn(nat) -> nat, i: nat)
    requires
        sound_setting(g, w, run),
    ensures
        spec_valid_transition(run_vector(g, run, i), run_vector(g, run, i + 1), g.closure_view()),
        run(i) < g.vectors().len(),
{
    let vs = g.vectors();
    let cl = g.closure_view();
    let s = run(i) as int;
    assert(run(i) < g.states@.len());
    assert(run(i + 1) < g.states@.len());
    assert(g.succ_view(s).contains(run(i + 1) as usize));
    let pt = |t: int| spec_valid_transition(vs[s], vs[t], cl);
    lemma_filter_ids(vs.len(), pt);
    assert(g.succ_view(s) == filter_ids(vs.len(), pt));
}

/// A pnf atom of the closure has in every state of the run its truth on the trace.
proof fn lemma_atom_value(g: GNBA, w: spec_fn(nat, Formula) -> bool, run: spec_fn(nat) -> nat, j: int, i: nat)
    requires
        sound_setting(g, w, run),
        0 <= j < g.closure_view().len(),
        is_pnf_atom(g.closure_view()[j]),
    ensures
        run_vector(g, run, i)[j] == holds(g.closure_view()[j], w)(i),
{
    let cl = g.closure_view();
    let v = run_vector(g, run, i);
    assert(run(i) < g.states@.len());
    assert(cl.contains(cl[j]));
    assert(spec_consistent(cl, v));
    match cl[j] {
        Formula::True | Formula::False => {
            lemma_consistent_direct(cl, v, j);
        },
        Formula::Number(_) => {},
        _ => {
            let v2 = Seq::new(cl.len(), |k: int| w(i, cl[k]));
            assert(spec_label(v, cl) == spec_label(v2, cl));
            lemma_label_exact(v, v2, cl, cl.len());
            assert(is_label_atom(cl[j]));
        },
    }
}

/// An operand that comes in the closure, without outer negation, before `idx` gets its value
/// from the part of a vector before `idx`, the same value as in the whole vector.
proof fn lemma_assigned_is_eval(cl: Seq<Formula>, v: Seq<bool>, o: Formula, n: int)
    requires
        forall|h: Formula| #[trigger] cl.contains(h) ==> pnf_member(h),
        first_index(cl, strip_not(o)) matches Some(j) && j < n,
        n <= v.len(),
    ensures
        spec_assigned_truth(o, v.take(n), cl) == spec_eval_in_state(v, cl, o),
        spec_eval_in_state(v, cl, o) is Some,
{
    lemma_first_index(cl, strip_not(o));
    lemma_first_index(cl, o);
    if o is Not {
        assert(!cl.contains(o));
    }
}

/// An operand smaller than the closure formula at `idx` comes before it.
proof fn lemma_operand_before(cl: Seq<Formula>, o: Formula, idx: int)
    requires
        size_sorted(cl),
        cl.contains(strip_not(o)),
        0 <= idx < cl.len(),
        spec_size(strip_not(o)) < spec_size(cl[idx]),
    ensures
        first_index(cl, strip_not(o)) matches Some(j) && j < idx,
{
    lemma_first_index(cl, strip_not(o));
    let j = first_index(cl, strip_not(o))->0;
    if j > idx {
        assert(spec_size(cl[idx]) <= spec_size(cl[j]));
    }
}

/// Where an operand of a closure formula is true in a state of the run, it holds on the
/// trace; a negated atom is true exactly where it holds.
proof fn lemma_operand_sound(g: GNBA, w: spec_fn(nat, Formula) -> bool, run: spec_fn(nat) -> nat, o: Formula, i: nat)
    requires
        sound_setting(g, w, run),
        g.closure_view().contains(strip_not(o)),
        in_pnf(o),
        automaton_ready(o),
    ensures
        spec_eval_in_state(run_vector(g, run, i), g.closure_view(), o) is Some,
        or_false(spec_eval_in_state(run_vector(g, run, i), g.closure_view(), o)) ==> holds(o, w)(i),
        o is Not ==> or_false(spec_eval_in_state(run_vector(g, run, i), g.closure_view(), o))
            == holds(o, w)(i),
    decreases spec_size(o), 2nat,
{
    let cl = g.closure_view();
    let v = run_vector(g, run, i);
    assert(run(i) < g.states@.len());
    lemma_first_index(cl, strip_not(o));
    lemma_first_index(cl, o);
    let j = first_index(cl, strip_not(o))->0;
    match o {
        Formula::Not(a) => {
            assert(!cl.contains(o)) by {
                if cl.contains(o) {
                    assert(pnf_member(o));
                }
            }
            assert(cl[j] == *a);
            lemma_atom_value(g, w, run, j, i);
        },
        _ => {
            assert(cl[j] == o);
            lemma_sound_at(g, w, run, j, i);
        },
    }
}

/// `u` follows the step rule of `l U r` over the values `el`, `er` of its operands, and is
/// left, at `j`, false or with `er` true.
proof fn lemma_until_chain(
    pl: PosPred,
    pr: PosPred,
    u: spec_fn(nat) -> bool,
    el: spec_fn(nat) -> bool,
    er: spec_fn(nat) -> bool,
    i: nat,
    m: nat,
    j: nat,
)
    requires
        forall|k: nat| #[trigger] u(k) == (er(k) || (el(k) && u(k + 1))),
        forall|k: nat| #[trigger] er(k) ==> pr(k),
        forall|k: nat| #[trigger] el(k) ==> pl(k),
        i <= m <= j,
        u(m),
        forall|k: nat| i <= k < m ==> #[trigger] pl(k),
        !u(j) || er(j),
    ensures
        until(pl, pr)(i),
    decreases j - m,
{
    if er(m) {
        assert(pr(m));
    } else {
        assert(el(m) && u(m + 1));
        assert(pl(m));
        if m == j {
            assert(false);
        }
        assert forall|k: nat| i <= k < m + 1 implies #[trigger] pl(k) by {}
        lemma_until_chain(pl, pr, u, el, er, i, m + 1, j);
    }
}

/// `u` follows the step rule of `l R r` over the values `el`, `er` of its operands: from a
/// position where it is true, it stays true up to the first position where `el` is true.
proof fn lemma_release_upto(
    u: spec_fn(nat) -> bool,
    el: spec_fn(nat) -> bool,
    er: spec_fn(nat) -> bool,
    i: nat,
    k: nat,
)
    requires
        forall|x: nat| #[trigger] u(x) == (er(x) && (el(x) || u(x + 1))),
        i <= k,
        u(i),
    ensures
        u(k) || exists|j: nat| i <= j < k && #[trigger] el(j),
    decreases k - i,
{
    if k > i {
        let km = (k - 1) as nat;
        lemma_release_upto(u, el, er, i, km);
        if u(km) {
            assert(u(km) == (er(km) && (el(km) || u(k))));
            if el(km) {
                assert(i <= km && km < k);
            }
        } else {
            let j = choose|j: nat| i <= j < km && #[trigger] el(j);
            assert(i <= j < k);
        }
    }
}

/// Where a plain operand of a closure formula holds on the trace, a state of the run makes it
/// true.
proof fn lemma_operand_complete(g: GNBA, w: spec_fn(nat, Formula) -> bool, run: spec_fn(nat) -> nat, o: Formula, i: nat)
    requires
        sound_setting(g, w, run),
        g.closure_view().contains(strip_not(o)),
        plain(o),
    ensures
        spec_eval_in_state(run_vector(g, run, i), g.closure_view(), o) is Some,
        holds(o, w)(i) ==> or_false(spec_eval_in_state(run_vector(g, run, i), g.closure_view(), o)),
    decreases spec_size(o), 2nat,
{
    let cl = g.closure_view();
    assert(run(i) < g.states@.len());
    lemma_first_index(cl, strip_not(o));
    lemma_first_index(cl, o);
    let j = first_index(cl, strip_not(o))->0;
    match o {
        Formula::Not(a) => {
            assert(!cl.contains(o)) by {
                if cl.contains(o) {
                    assert(pnf_member(o));
                }
            }
            assert(cl[j] == *a);
            lemma_atom_value(g, w, run, j, i);
        },
        _ => {
            assert(cl[j] == o);
            lemma_complete_at(g, w, run, j, i);
        },
    }
}

/// `u` follows the step rule of `l U r` over the values `el`, `er` of its operands, which are
/// true wherever the operands hold: where `l U r` holds, `u` is true.
proof fn lemma_until_back(
    pl: PosPred,
    pr: PosPred,
    u: spec_fn(nat) -> bool,
    el: spec_fn(nat) -> bool,
    er: spec_fn(nat) -> bool,
    i: nat,
    k: nat,
)
    requires
        forall|m: nat| #[trigger] u(m) == (er(m) || (el(m) && u(m + 1))),
        forall|m: nat| #[trigger] pr(m) ==> er(m),
        forall|m: nat| #[trigger] pl(m) ==> el(m),
        i <= k,
        pr(k),
        forall|m: nat| i <= m < k ==> #[trigger] pl(m),
    ensures
        u(i),
    decreases k - i,
{
    assert(u(i) == (er(i) || (el(i) && u(i + 1))));
    if i < k {
        lemma_until_back(pl, pr, u, el, er, i + 1, k);
        assert(pl(i));
    } else {
        assert(er(k));
    }
}

/// Completeness at one plain closure formula: where it holds on the trace, the state of the
/// run makes it true.
proof fn lemma_complete_at(g: GNBA, w: spec_fn(nat, Formula) -> bool, run: spec_fn(nat) -> nat, idx: int, i: nat)
    requires
        sound_setting(g, w, run),
        0 <= idx < g.closure_view().len(),
        plain(g.closure_view()[idx]),
    ensures
        holds(g.closure_view()[idx], w)(i) ==> run_vector(g, run, i)[idx],
    decreases spec_size(g.closure_view()[idx]), 1nat,
{
    let cl = g.closure_view();
    let v = run_vector(g, run, i);
    let f = cl[idx];
    assert(cl.contains(f));
    assert(pnf_member(f));
    assert(operands_present(cl, f));
    assert(run(i) < g.states@.len());
    assert(spec_consistent(cl, v));
    match f {
        Formula::And(l, r) | Formula::Or(l, r) => {
            lemma_consistent_direct(cl, v, idx);
            lemma_strip_size(*l);
            lemma_strip_size(*r);
            lemma_operand_before(cl, *l, idx);
            lemma_operand_before(cl, *r, idx);
            lemma_assigned_is_eval(cl, v, *l, idx);
            lemma_assigned_is_eval(cl, v, *r, idx);
            lemma_operand_complete(g, w, run, *l, i);
            lemma_operand_complete(g, w, run, *r, i);
        },
        Formula::Next(a) => {
            lemma_run_step(g, w, run, i);
            assert(step_rule(v, run_vector(g, run, i + 1), cl, idx));
            lemma_operand_complete(g, w, run, *a, i + 1);
        },
        Formula::Until(l, r) => {
            lemma_first_index(cl, f);
            let j0 = first_index(cl, f)->0;
            assert(j0 == idx) by {
                if j0 != idx {
                    assert(cl[j0] == cl[idx]);
                }
            }
            let u = |k: nat| run_vector(g, run, k)[idx];
            let el = |k: nat| or_false(spec_eval_in_state(run_vector(g, run, k), cl, *l));
            let er = |k: nat| or_false(spec_eval_in_state(run_vector(g, run, k), cl, *r));
            let pl = holds(*l, w);
            let pr = holds(*r, w);
            assert forall|k: nat| #[trigger] u(k) == (er(k) || (el(k) && u(k + 1))) by {
                lemma_run_step(g, w, run, k);
                assert(step_rule(run_vector(g, run, k), run_vector(g, run, k + 1), cl, idx));
            }
            assert forall|k: nat| #[trigger] pr(k) implies er(k) by {
                lemma_operand_complete(g, w, run, *r, k);
            }
            assert forall|k: nat| #[trigger] pl(k) implies el(k) by {
                lemma_operand_complete(g, w, run, *l, k);
            }
            assert(holds(f, w) == until(pl, pr));
            if holds(f, w)(i) {
                let k = choose|k: nat| i <= k && #[trigger] pr(k) && forall|j: nat| i <= j < k ==> #[trigger] pl(j);
                lemma_until_back(pl, pr, u, el, er, i, k);
            }
        },
        _ => {
            if is_pnf_atom(f) {
                lemma_atom_value(g, w, run, idx, i);
            }
        },
    }
}

/// Soundness at one closure formula: where a state of the run makes it true, it holds on the
/// trace.
proof fn lemma_sound_at(g: GNBA, w: spec_fn(nat, Formula) -> bool, run: spec_fn(nat) -> nat, idx: int, i: nat)
    requires
        sound_setting(g, w, run),
        0 <= idx < g.closure_view().len(),
    ensures
        run_vector(g, run, i)[idx] ==> holds(g.closure_view()[idx], w)(i),
    decreases spec_size(g.closure_view()[idx]), 1nat,
{
    let cl = g.closure_view();
    let v = run_vector(g, run, i);
    let f = cl[idx];
    assert(cl.contains(f));
    assert(pnf_member(f));
    assert(operands_present(cl, f));
    assert(run(i) < g.states@.len());
    assert(spec_consistent(cl, v));
    match f {
        Formula::Implies(l, r) => {
            lemma_consistent_direct(cl, v, idx);
            lemma_strip_size(*l);
            lemma_strip_size(*r);
            lemma_operand_before(cl, *l, idx);
            lemma_operand_before(cl, *r, idx);
            lemma_assigned_is_eval(cl, v, *l, idx);
            lemma_assigned_is_eval(cl, v, *r, idx);
            lemma_operand_complete(g, w, run, *l, i);
            lemma_operand_sound(g, w, run, *r, i);
        },
        Formula::And(l, r) | Formula::Or(l, r) => {
            lemma_consistent_direct(cl, v, idx);
            lemma_strip_size(*l);
            lemma_strip_size(*r);
            lemma_operand_before(cl, *l, idx);
            lemma_operand_before(cl, *r, idx);
            lemma_assigned_is_eval(cl, v, *l, idx);
            lemma_assigned_is_eval(cl, v, *r, idx);
            lemma_operand_sound(g, w, run, *l, i);
            lemma_operand_sound(g, w, run, *r, i);
        },
        Formula::Next(a) => {
            lemma_run_step(g, w, run, i);
            assert(step_rule(v, run_vector(g, run, i + 1), cl, idx));
            lemma_operand_sound(g, w, run, *a, i + 1);
        },
        Formula::Until(l, r) => {
            let j0 = first_index(cl, f)->0;
            lemma_first_index(cl, f);
            let u = |k: nat| run_vector(g, run, k)[j0];
            let el = |k: nat| or_false(spec_eval_in_state(run_vector(g, run, k), cl, *l));
            let er = |k: nat| or_false(spec_eval_in_state(run_vector(g, run, k), cl, *r));
            let pl = holds(*l, w);
            let pr = holds(*r, w);
            assert forall|k: nat| #[trigger] u(k) == (er(k) || (el(k) && u(k + 1))) by {
                lemma_run_step(g, w, run, k);
                assert(step_rule(run_vector(g, run, k), run_vector(g, run, k + 1), cl, j0));
                assert(cl[j0] == f);
            }
            assert forall|k: nat| #[trigger] er(k) implies pr(k) by {
                lemma_operand_sound(g, w, run, *r, k);
            }
            assert forall|k: nat| #[trigger] el(k) implies pl(k) by {
                lemma_operand_sound(g, w, run, *l, k);
            }
            lemma_run_step(g, w, run, i);
            assert(step_rule(v, run_vector(g, run, i + 1), cl, idx));
            if v[idx] {
                assert(u(i));
                let vs = g.vectors();
                let a = lemma_acceptance_has(vs, cl, cl.len(), j0);
                assert(g.acceptance_view()[a] == filter_ids(
                    vs.len(),
                    |s: int| accepts_for(vs[s], cl, j0),
                ));
                assert(visits_after(g.acceptance_view()[a], run, i));
                let j = choose|j: nat| i <= j && #[trigger] g.acceptance_view()[a].contains(run(j) as usize);
                let pa = |s: int| accepts_for(vs[s], cl, j0);
                lemma_filter_ids(vs.len(), pa);
                assert(run(j) < g.states@.len());
                assert(accepts_for(run_vector(g, run, j), cl, j0));
                lemma_operand_sound(g, w, run, *r, j);
                lemma_first_index(cl, strip_not(*r));
                lemma_first_index(cl, *r);
                if *r is Not {
                    assert(!cl.contains(*r)) by {
                        if cl.contains(*r) {
                            assert(pnf_member(*r));
                        }
                    }
                }
                assert(!u(j) || er(j));
                lemma_until_chain(pl, pr, u, el, er, i, i, j);
            }
        },
        Formula::Release(l, r) => {
            let j0 = first_index(cl, f)->0;
            lemma_first_index(cl, f);
            let u = |k: nat| run_vector(g, run, k)[j0];
            let el = |k: nat| or_false(spec_eval_in_state(run_vector(g, run, k), cl, *l));
            let er = |k: nat| or_false(spec_eval_in_state(run_vector(g, run, k), cl, *r));
            let pl = holds(*l, w);
            let pr = holds(*r, w);
            assert forall|k: nat| #[trigger] u(k) == (er(k) && (el(k) || u(k + 1))) by {
                lemma_run_step(g, w, run, k);
                assert(step_rule(run_vector(g, run, k), run_vector(g, run, k + 1), cl, j0));
                assert(cl[j0] == f);
            }
            lemma_run_step(g, w, run, i);
            assert(step_rule(v, run_vector(g, run, i + 1), cl, idx));
            if v[idx] {
                assert(u(i));
                assert forall|k: nat| i <= k implies #[trigger] pr(k) || exists|j: nat| i <= j < k && #[trigger] pl(j) by {
                    lemma_release_upto(u, el, er, i, k);
                    if u(k) {
                        lemma_operand_sound(g, w, run, *r, k);
                    } else {
                        let j = choose|j: nat| i <= j < k && #[trigger] el(j);
                        lemma_operand_sound(g, w, run, *l, j);
                        assert(pl(j));
                    }
                }
            }
        },
        _ => {
            if is_pnf_atom(f) {
                lemma_atom_value(g, w, run, idx, i);
            }
        },
    }
}

/// Soundness of the automaton: a trace with an accepting run of the GNBA built for `f`
/// satisfies `f` at its first position, for every `f` without path quantifiers or bare
/// numbers whose implications have left operands that are plain once negations are pushed.
pub proof fn lemma_gnba_sound(g: GNBA, f: Formula, w: spec_fn(nat, Formula) -> bool, run: spec_fn(nat) -> nat)
    requires
        g.built_from(f),
        no_path_quantifier(f),
        comparisons_fixed(f),
        entry_ready(f),
        is_run(g, w, run),
        is_accepting(g, run),
    ensures
        holds(f, w)(0),
{
    lemma_ready_automaton(f);
    let pnf = spec_automaton_formula(f);
    let cl = g.closure_view();
    let vs = g.vectors();
    lemma_automaton_formula(f);
    assert(holds(pnf, w) == holds(f, w));
    lemma_closure_closed(pnf);
    lemma_closure_shape(pnf);
    lemma_closure_no_dup(pnf);
    lemma_is_consistent_exact(cl);
    assert(vs.len() == g.states@.len());
    assert(g.states.len() == g.states@.len());
    assert forall|s: int| 0 <= s < vs.len() implies #[trigger] spec_consistent(cl, vs[s]) && vs[s].len() == cl.len() by {
        assert(vs.contains(vs[s]));
    }
    assert(sound_setting(g, w, run));
    let pi = |s: int| spec_eval_in_state(vs[s], cl, pnf) == Some(true);
    lemma_filter_ids(vs.len(), pi);
    assert(run(0) < g.states@.len());
    assert(pi(run(0) as int));
    lemma_operand_sound(g, w, run, pnf, 0);
}

/// `g` has an accepting run on the trace `w`.
pub open spec fn accepts_trace(g: GNBA, w: spec_fn(nat, Formula) -> bool) -> bool {
    exists|run: spec_fn(nat) -> nat| is_run(g, w, run) && is_accepting(g, run)
}

/// The formulas for which the automaton is exact: no path quantifier, comparisons that mean
/// what they say, no bare number, and implications whose left operand is plain once its
/// negations are pushed inwards.
pub open spec fn language_exact(f: Formula) -> bool {
    &&& no_path_quantifier(f)
    &&& comparisons_fixed(f)
    &&& entry_ready(f)
}

/// The GNBA built for `f` accepts exactly the traces that satisfy `f` at their first
/// position.
pub proof fn lemma_gnba_language(g: GNBA, f: Formula, w: spec_fn(nat, Formula) -> bool)
    requires
        g.built_from(f),
        language_exact(f),
    ensures
        accepts_trace(g, w) <==> holds(f, w)(0),
{
    if accepts_trace(g, w) {
        let run = choose|run: spec_fn(nat) -> nat| is_run(g, w, run) && is_accepting(g, run);
        lemma_gnba_sound(g, f, w, run);
    }
    if holds(f, w)(0) {
        lemma_gnba_complete(g, f, w);
        assert(is_run(g, w, trace_run(g, w)) && is_accepting(g, trace_run(g, w)));
    }
}

proof fn lemma_ready_simplify(f: Formula)
    requires
        automaton_ready(f),
    ensures
        automaton_ready(spec_simplify(f)),
    decreases f,
{
    match f {
        Formula::Globally(a) => match *a {
            Formula::Globally(b) => {
                assert(automaton_ready(*a) == automaton_ready(*b));
                lemma_ready_simplify(Formula::Globally(b));
            },
            _ => {},
        },
        Formula::Eventually(a) => match *a {
            Formula::Eventually(b) => {
                assert(automaton_ready(*a) == automaton_ready(*b));
                lemma_ready_simplify(Formula::Eventually(b));
            },
            _ => {},
        },
        Formula::Next(a) => match *a {
            Formula::Or(l, r) | Formula::And(l, r) | Formula::Until(l, r) => {
                assert(automaton_ready(*a) == (automaton_ready(*l) && automaton_ready(*r)));
                assert(automaton_ready(Formula::Next(l)) == automaton_ready(*l));
                assert(automaton_ready(Formula::Next(r)) == automaton_ready(*r));
            },
            _ => {},
        },
        _ => {},
    }
}

proof fn lemma_entry_simplify(f: Formula)
    requires
        entry_ready(f),
    ensures
        entry_ready(spec_simplify(f)),
    decreases f,
{
    match f {
        Formula::Globally(a) => match *a {
            Formula::Globally(b) => {
                assert(entry_ready(*a) == entry_ready(*b));
                lemma_entry_simplify(Formula::Globally(b));
            },
            _ => {},
        },
        Formula::Eventually(a) => match *a {
            Formula::Eventually(b) => {
                assert(entry_ready(*a) == entry_ready(*b));
                lemma_entry_simplify(Formula::Eventually(b));
            },
            _ => {},
        },
        Formula::Next(a) => match *a {
            Formula::Or(l, r) | Formula::And(l, r) | Formula::Until(l, r) => {
                assert(entry_ready(*a) == (entry_ready(*l) && entry_ready(*r)));
                assert(entry_ready(Formula::Next(l)) == entry_ready(*l));
                assert(entry_ready(Formula::Next(r)) == entry_ready(*r));
            },
            _ => {},
        },
        _ => {},
    }
}

proof fn lemma_ready_push(f: Formula)
    requires
        entry_ready(f),
    ensures
        automaton_ready(spec_push_inwards(f)),
    decreases pnf_weight(f), not_rank(f),
{
    match f {
        Formula::Not(g) => match *g {
            Formula::Next(x) => {
                assert(pnf_weight(Formula::Next(x)) == pnf_weight(*x) + 1);
                assert(pnf_weight(fnot(*x)) == 2 * pnf_weight(*x) + 1);
                assert(entry_ready(*g) == entry_ready(*x));
                assert(entry_ready(fnot(*x)) == entry_ready(*x));
                lemma_ready_push(Formula::Next(Box::new(fnot(*x))));
            },
            Formula::Globally(x) => {
                assert(pnf_weight(Formula::Globally(x)) == pnf_weight(*x) + 1);
                assert(pnf_weight(fnot(*x)) == 2 * pnf_weight(*x) + 1);
                assert(entry_ready(*g) == entry_ready(*x));
                assert(entry_ready(fnot(*x)) == entry_ready(*x));
                lemma_ready_push(Formula::Eventually(Box::new(fnot(*x))));
            },
            Formula::Eventually(x) => {
                assert(pnf_weight(Formula::Eventually(x)) == pnf_weight(*x) + 1);
                assert(pnf_weight(fnot(*x)) == 2 * pnf_weight(*x) + 1);
                assert(entry_ready(*g) == entry_ready(*x));
                assert(entry_ready(fnot(*x)) == entry_ready(*x));
                lemma_ready_push(Formula::Globally(Box::new(fnot(*x))));
            },
            Formula::Until(l, r) => {
                assert(pnf_weight(Formula::Until(l, r)) == pnf_weight(*l) + pnf_weight(*r) + 1);
                assert(pnf_weight(fnot(*l)) == 2 * pnf_weight(*l) + 1);
                assert(pnf_weight(fnot(*r)) == 2 * pnf_weight(*r) + 1);
                assert(entry_ready(*g) == (entry_ready(*l) && entry_ready(*r)));
                assert(entry_ready(fnot(*l)) == entry_ready(*l));
                assert(entry_ready(fnot(*r)) == entry_ready(*r));
                lemma_ready_push(Formula::Release(Box::new(fnot(*l)), Box::new(fnot(*r))));
            },
            Formula::Release(l, r) => {
                assert(pnf_weight(Formula::Release(l, r)) == pnf_weight(*l) + pnf_weight(*r) + 1);
                assert(pnf_weight(fnot(*l)) == 2 * pnf_weight(*l) + 1);
                assert(pnf_weight(fnot(*r)) == 2 * pnf_weight(*r) + 1);
                assert(entry_ready(*g) == (entry_ready(*l) && entry_ready(*r)));
                assert(entry_ready(fnot(*l)) == entry_ready(*l));
                assert(entry_ready(fnot(*r)) == entry_ready(*r));
                lemma_ready_push(Formula::Until(Box::new(fnot(*l)), Box::new(fnot(*r))));
            },
            Formula::WeakUntil(l, r) => {
                assert(pnf_weight(Formula::WeakUntil(l, r)) == pnf_weight(*l) + pnf_weight(*r) + 1);
                assert(pnf_weight(fnot(*l)) == 2 * pnf_weight(*l) + 1);
                assert(pnf_weight(fnot(*r)) == 2 * pnf_weight(*r) + 1);
                assert(entry_ready(*g) == (entry_ready(*l) && entry_ready(*r)));
                assert(entry_ready(fnot(*l)) == entry_ready(*l));
                assert(entry_ready(fnot(*r)) == entry_ready(*r));
                lemma_ready_push(Formula::MightyRelease(Box::new(fnot(*l)), Box::new(fnot(*r))));
            },
            Formula::MightyRelease(l, r) => {
                assert(pnf_weight(Formula::MightyRelease(l, r)) == pnf_weight(*l) + pnf_weight(*r) + 1);
                assert(pnf_weight(fnot(*l)) == 2 * pnf_weight(*l) + 1);
                assert(pnf_weight(fnot(*r)) == 2 * pnf_weight(*r) + 1);
                assert(entry_ready(*g) == (entry_ready(*l) && entry_ready(*r)));
                assert(entry_ready(fnot(*l)) == entry_ready(*l));
                assert(entry_ready(fnot(*r)) == entry_ready(*r));
                lemma_ready_push(Formula::WeakUntil(Box::new(fnot(*l)), Box::new(fnot(*r))));
            },
            Formula::And(l, r) => {
                assert(pnf_weight(Formula::And(l, r)) == pnf_weight(*l) + pnf_weight(*r) + 1);
                assert(pnf_weight(fnot(*l)) == 2 * pnf_weight(*l) + 1);
                assert(pnf_weight(fnot(*r)) == 2 * pnf_weight(*r) + 1);
                assert(entry_ready(*g) == (entry_ready(*l) && entry_ready(*r)));
                assert(entry_ready(fnot(*l)) == entry_ready(*l));
                assert(entry_ready(fnot(*r)) == entry_ready(*r));
                lemma_ready_push(Formula::Or(Box::new(fnot(*l)), Box::new(fnot(*r))));
            },
            Formula::Or(l, r) => {
                assert(pnf_weight(Formula::Or(l, r)) == pnf_weight(*l) + pnf_weight(*r) + 1);
                assert(pnf_weight(fnot(*l)) == 2 * pnf_weight(*l) + 1);
                assert(pnf_weight(fnot(*r)) == 2 * pnf_weight(*r) + 1);
                assert(entry_ready(*g) == (entry_ready(*l) && entry_ready(*r)));
                assert(entry_ready(fnot(*l)) == entry_ready(*l));
                assert(entry_ready(fnot(*r)) == entry_ready(*r));
                lemma_ready_push(Formula::And(Box::new(fnot(*l)), Box::new(fnot(*r))));
            },
            Formula::Not(x) => {
                assert(pnf_weight(Formula::Not(x)) == 2 * pnf_weight(*x) + 1);
                assert(entry_ready(*g) == entry_ready(*x));
                lemma_ready_push(*x);
            },
            Formula::Implies(l, r) => {
                assert(pnf_weight(Formula::Implies(l, r)) == pnf_weight(*l) + pnf_weight(*r) + 1);
                assert(pnf_weight(fnot(*r)) == 2 * pnf_weight(*r) + 1);
                assert(entry_ready(*g) == (plain(spec_push_inwards(*l)) && entry_ready(*l) && entry_ready(*r)));
                assert(entry_ready(fnot(*r)) == entry_ready(*r));
                lemma_ready_push(Formula::And(l, Box::new(fnot(*r))));
            },
            _ => {
                assert(entry_ready(*g));
                assert(spec_push_inwards(f) == f);
                assert(automaton_ready(*g));
            },
        },
        Formula::And(l, r) | Formula::Or(l, r) | Formula::Until(l, r) | Formula::Release(l, r)
        | Formula::WeakUntil(l, r) | Formula::MightyRelease(l, r) => {
            lemma_ready_push(*l);
            lemma_ready_push(*r);
        },
        Formula::Implies(l, r) => {
            lemma_ready_push(*l);
            lemma_ready_push(*r);
        },
        Formula::Next(x) | Formula::Globally(x) | Formula::Eventually(x) | Formula::AllPaths(x)
        | Formula::SomePath(x) => {
            lemma_ready_push(*x);
        },
        _ => {},
    }
}

proof fn lemma_atom_kept(a: Formula)
    requires
        is_pnf_atom(a),
    ensures
        spec_eliminate_all(a) == a,
{
    match a {
        Formula::True => {},
        Formula::False => {},
        Formula::Var(_) => {},
        Formula::TokenCount(_) => {},
        Formula::Fireable(_) => {},
        Formula::Number(_) => {},
        Formula::LessEqual(_, _) => {},
        Formula::GreaterEqual(_, _) => {},
        Formula::Greater(_, _) => {},
        Formula::Less(_, _) => {},
        _ => {},
    }
}

/// Rewriting `F` by `U` keeps a formula plain.
proof fn lemma_plain_eliminate_all(f: Formula)
    requires
        plain(f),
    ensures
        plain(spec_eliminate_all(f)),
    decreases f,
{
    match f {
        Formula::And(l, r) | Formula::Or(l, r) | Formula::Until(l, r) => {
            lemma_plain_eliminate_all(*l);
            lemma_plain_eliminate_all(*r);
        },
        Formula::Next(x) => {
            lemma_plain_eliminate_all(*x);
        },
        Formula::MightyRelease(l, r) => {
            lemma_plain_eliminate_all(*l);
            lemma_plain_eliminate_all(*r);
            let el = spec_eliminate_all(*l);
            let er = spec_eliminate_all(*r);
            assert(plain(Formula::And(Box::new(el), Box::new(er))));
        },
        Formula::Eventually(x) => {
            lemma_plain_eliminate_all(*x);
            assert(plain(Formula::True));
            assert(spec_eliminate_all(f) == Formula::Until(Box::new(Formula::True), Box::new(spec_eliminate_all(*x))));
        },
        Formula::Not(a) => {
            lemma_atom_kept(*a);
        },
        _ => {},
    }
}

proof fn lemma_ready_eliminate_all(f: Formula)
    requires
        automaton_ready(f),
    ensures
        automaton_ready(spec_eliminate_all(f)),
    decreases f,
{
    match f {
        Formula::Not(x) | Formula::Next(x) | Formula::AllPaths(x) | Formula::SomePath(x) => {
            lemma_ready_eliminate_all(*x);
        },
        Formula::Globally(x) | Formula::Eventually(x) => {
            lemma_ready_eliminate_all(*x);
            assert(automaton_ready(Formula::True) && automaton_ready(Formula::False));
        },
        Formula::And(l, r) | Formula::Or(l, r) | Formula::Until(l, r) | Formula::Release(l, r) => {
            lemma_ready_eliminate_all(*l);
            lemma_ready_eliminate_all(*r);
        },
        Formula::WeakUntil(l, r) => {
            lemma_ready_eliminate_all(*l);
            lemma_ready_eliminate_all(*r);
            let el = spec_eliminate_all(*l);
            let er = spec_eliminate_all(*r);
            assert(automaton_ready(Formula::Or(Box::new(el), Box::new(er))));
        },
        Formula::MightyRelease(l, r) => {
            lemma_ready_eliminate_all(*l);
            lemma_ready_eliminate_all(*r);
            let el = spec_eliminate_all(*l);
            let er = spec_eliminate_all(*r);
            assert(automaton_ready(Formula::And(Box::new(el), Box::new(er))));
        },
        Formula::Implies(l, r) => {
            lemma_plain_eliminate_all(*l);
            lemma_ready_eliminate_all(*l);
            lemma_ready_eliminate_all(*r);
        },
        _ => {},
    }
}

/// The automaton formula of a formula with no bare number, no path quantifier and left
/// operands to its implications that are plain once negations are pushed has no bare number
/// and plain left operands to its implications.
pub proof fn lemma_ready_automaton(f: Formula)
    requires
        entry_ready(f),
    ensures
        automaton_ready(spec_automaton_formula(f)),
{
    lemma_entry_simplify(f);
    lemma_ready_push(spec_simplify(f));
    lemma_ready_simplify(spec_push_inwards(spec_simplify(f)));
    let e = spec_eliminate(spec_simplify(spec_push_inwards(spec_simplify(f))));
    let h = spec_simplify(spec_push_inwards(spec_simplify(f)));
    assert(automaton_ready(e)) by {
        match h {
            Formula::WeakUntil(l, r) => {
                assert(automaton_ready(Formula::Or(l, r)));
            },
            Formula::MightyRelease(l, r) => {
                assert(automaton_ready(Formula::And(l, r)));
            },
            Formula::Globally(x) | Formula::Eventually(x) => {
                assert(automaton_ready(Formula::True) && automaton_ready(Formula::False));
            },
            _ => {},
        }
    }
    lemma_ready_simplify(e);
    lemma_ready_eliminate_all(spec_to_pnf(f));
}

proof fn lemma_visit_no_dup(f: Formula, acc: Seq<Formula>)
    requires
        acc.no_duplicates(),
    ensures
        closure_visit(f, acc).no_duplicates(),
    decreases f,
{
    let g = strip_not(f);
    if !acc.contains(g) {
        let acc1 = acc.push(g);
        assert(acc1.no_duplicates()) by {
            assert forall|i: int, j: int| 0 <= i < j < acc1.len() implies acc1[i] != acc1[j] by {
                if j == acc.len() {
                    assert(acc.contains(acc1[i]));
                }
            }
        }
        let r = closure_visit(f, acc);
        match f {
            Formula::Not(x) => match *x {
                Formula::Not(y) => {
                    lemma_visit_no_dup(*y, acc1);
                    assert(r == closure_visit(*y, acc1));
                },
                Formula::And(a, b) | Formula::Or(a, b) | Formula::Implies(a, b) | Formula::Until(
                    a,
                    b,
                ) | Formula::Release(a, b) | Formula::WeakUntil(a, b) | Formula::MightyRelease(
                    a,
                    b,
                ) => {
                    lemma_visit_no_dup(*a, acc1);
                    lemma_visit_no_dup(*b, closure_visit(*a, acc1));
                    assert(r == closure_visit(*b, closure_visit(*a, acc1)));
                },
                Formula::Next(y) | Formula::Eventually(y) | Formula::Globally(y)
                | Formula::AllPaths(y) | Formula::SomePath(y) => {
                    lemma_visit_no_dup(*y, acc1);
                    assert(r == closure_visit(*y, acc1));
                },
                _ => {
                    assert(r == acc1);
                },
            },
            Formula::And(a, b) | Formula::Or(a, b) | Formula::Implies(a, b) | Formula::Until(a, b)
            | Formula::Release(a, b) | Formula::WeakUntil(a, b) | Formula::MightyRelease(a, b) => {
                lemma_visit_no_dup(*a, acc1);
                lemma_visit_no_dup(*b, closure_visit(*a, acc1));
                assert(r == closure_visit(*b, closure_visit(*a, acc1)));
            },
            Formula::Next(y) | Formula::Eventually(y) | Formula::Globally(y) | Formula::AllPaths(y)
            | Formula::SomePath(y) => {
                lemma_visit_no_dup(*y, acc1);
                assert(r == closure_visit(*y, acc1));
            },
            _ => {
                assert(r == acc1);
            },
        }
    }
}

proof fn lemma_insert_no_dup(s: Seq<Formula>, x: Formula)
    requires
        s.no_duplicates(),
        !s.contains(x),
    ensures
        insert_by_size(s, x).no_duplicates(),
    decreases s.len(),
{
    if s.len() == 0 {
        assert(insert_by_size(s, x) =~= seq![x]);
    } else if spec_size(s.last()) <= spec_size(x) {
        let r = s.push(x);
        assert forall|i: int, j: int| 0 <= i < j < r.len() implies r[i] != r[j] by {
            if j == s.len() {
                assert(s.contains(r[i]));
            }
        }
    } else {
        let t = s.drop_last();
        assert(t.no_duplicates()) by {
            assert forall|i: int, j: int| 0 <= i < j < t.len() implies t[i] != t[j] by {
                assert(t[i] == s[i] && t[j] == s[j]);
            }
        }
        assert(!t.contains(x)) by {
            if t.contains(x) {
                let k = choose|k: int| 0 <= k < t.len() && t[k] == x;
                assert(s[k] == x);
            }
        }
        lemma_insert_no_dup(t, x);
        lemma_insert_contains(t, x);
        let q = insert_by_size(t, x);
        let r = q.push(s.last());
        assert(!q.contains(s.last())) by {
            if t.contains(s.last()) {
                let k = choose|k: int| 0 <= k < t.len() && t[k] == s.last();
                assert(s[k] == s[s.len() - 1]);
            }
            assert(s.contains(s.last()));
        }
        assert forall|i: int, j: int| 0 <= i < j < r.len() implies r[i] != r[j] by {
            if j == q.len() {
                assert(q.contains(r[i]));
            }
        }
    }
}

proof fn lemma_sort_no_dup(s: Seq<Formula>)
    requires
        s.no_duplicates(),
    ensures
        sort_by_size(s).no_duplicates(),
    decreases s.len(),
{
    if s.len() > 0 {
        let t = s.drop_last();
        assert(t.no_duplicates()) by {
            assert forall|i: int, j: int| 0 <= i < j < t.len() implies t[i] != t[j] by {
                assert(t[i] == s[i] && t[j] == s[j]);
            }
        }
        lemma_sort_no_dup(t);
        lemma_sort_contains(t);
        assert(!sort_by_size(t).contains(s.last())) by {
            if t.contains(s.last()) {
                let k = choose|k: int| 0 <= k < t.len() && t[k] == s.last();
                assert(s[k] == s[s.len() - 1]);
            }
        }
        lemma_insert_no_dup(sort_by_size(t), s.last());
    }
}

/// No formula stands twice in a closure.
pub proof fn lemma_closure_no_dup(f: Formula)
    ensures
        spec_closure(f).no_duplicates(),
{
    let e: Seq<Formula> = seq![];
    lemma_visit_no_dup(f, e);
    lemma_sort_no_dup(closure_visit(f, e));
}

/// In the closure of a formula, each `&`, `|` and `->` comes after its operands, so that the
/// consistent truth vectors over it are those that follow the direct local rules.
pub proof fn lemma_closure_operands_before(f: Formula)
    ensures
        operands_before(spec_closure(f)),
{
    lemma_closure_closed(f);
    let e: Seq<Formula> = seq![];
    lemma_sort_sorted(closure_visit(f, e));
    let cl = spec_closure(f);
    assert forall|i: int| 0 <= i < cl.len() implies #[trigger] operands_before_at(cl, i) by {
        assert(cl.contains(cl[i]));
        assert(operands_present(cl, cl[i]));
        match cl[i] {
            Formula::And(l, r) | Formula::Or(l, r) | Formula::Implies(l, r) => {
                lemma_strip_size(*l);
                lemma_strip_size(*r);
                lemma_operand_before(cl, *l, i);
                lemma_operand_before(cl, *r, i);
            },
            _ => {},
        }
    }
}

} // verus!
