use vstd::prelude::*;

use crate::closure::fviews;
use crate::consistency::{first_index, lemma_first_index};
use crate::emptyness::{aut_lasso, graph_walk};
use crate::product::nba_for;
use crate::pnf::spec_automaton_formula;
use crate::gnba::{filter_ids, lemma_filter_ids, spec_label, GNBA};
use crate::graph::{has_edge, lemma_reaches_refl, lemma_reaches_step, mutual, reaches};
use crate::language::{
    is_accepting, is_run, language_exact, lemma_closure_no_dup, lemma_gnba_complete,
    lemma_gnba_sound, lemma_label_agree, trace_label, trace_run, visits_after,
};
use crate::ltl_parser::Formula;
use crate::nba::{on_accepting_cycle_scc, parts_useful, prune_list, rank, useful_state, NBA};
use crate::nba_build::{
    acc_count, acc_pred, deg_acc, deg_formulas, deg_graph, deg_init, deg_size, nba_size_ok,
    next_counter,
};
use crate::semantics::holds;

verus! {

/// `run` is a run of the NBA `n` on the trace `w`: it starts in an initial state, moves along
/// transitions, and the label of its state at each position is the label of the trace there.
pub open spec fn is_nba_run(n: NBA, w: spec_fn(nat, Formula) -> bool, run: spec_fn(nat) -> nat) -> bool {
    &&& n.initial_states@.contains(run(0) as usize)
    &&& forall|i: nat| #[trigger] run(i) < n.states@.len()
    &&& forall|i: nat| n.graph_view()[run(i) as int].contains(#[trigger] run(i + 1) as usize)
    &&& forall|i: nat|
        spec_label(n.states@[#[trigger] run(i) as int].formulas@, fviews(n.closure@)) == trace_label(
            fviews(n.closure@),
            w,
            i,
        )
}

/// `run` visits an accepting state of `n` infinitely often.
pub open spec fn is_nba_accepting(n: NBA, run: spec_fn(nat) -> nat) -> bool {
    forall|i: nat| #[trigger] visits_after(n.acceptance_condition.states@, run, i)
}

/// A member of a pruned list is the new number of a kept member of the list.
proof fn lemma_prune_member(s: Seq<usize>, keep: Seq<bool>, y: usize) -> (e: int)
    requires
        prune_list(s, keep).contains(y),
        forall|k: int| 0 <= k < s.len() ==> #[trigger] s[k] < keep.len(),
        keep.len() <= usize::MAX,
    ensures
        0 <= e < keep.len(),
        s.contains(e as usize),
        keep[e],
        rank(keep, e) == y,
    decreases s.len(),
{
    let t = s.drop_last();
    let p = prune_list(t, keep);
    let x = s.last() as int;
    assert(s[s.len() - 1] < keep.len());
    assert forall|k: int| 0 <= k < t.len() implies #[trigger] t[k] < keep.len() by {
        assert(t[k] == s[k]);
    }
    crate::graph::lemma_count_true_bound(keep.take(x));
    if keep[x] && y as int == rank(keep, x) as int {
        assert(s.contains(s.last()));
        x
    } else {
        if keep[x] {
            let r = p.push(rank(keep, x) as usize);
            assert(prune_list(s, keep) == r);
            let j = choose|j: int| 0 <= j < r.len() && r[j] == y;
            if j == p.len() {
                assert(r[j] == rank(keep, x) as usize);
                assert(false);
            }
            assert(p[j] == y);
        } else {
            assert(prune_list(s, keep) == p);
        }
        assert(p.contains(y));
        let e = lemma_prune_member(t, keep, y);
        let j = choose|j: int| 0 <= j < t.len() && t[j] == e as usize;
        assert(s[j] == e as usize);
        e
    }
}

/// A kept node stands in the list of kept nodes at its new number.
proof fn lemma_kept_at(keep: Seq<bool>, e: int)
    requires
        0 <= e < keep.len(),
        keep[e],
        keep.len() <= usize::MAX,
    ensures
        rank(keep, e) < filter_ids(keep.len(), |x: int| keep[x]).len(),
        filter_ids(keep.len(), |x: int| keep[x])[rank(keep, e) as int] == e,
{
    let p = |x: int| keep[x];
    crate::nba::lemma_filter_count(keep, p, e as nat);
    let a = filter_ids(e as nat, p);
    assert(a.len() == rank(keep, e));
    assert(filter_ids((e + 1) as nat, p) == a.push(e as usize));
    assert(a.push(e as usize)[a.len() as int] == e as usize);
    crate::nba::lemma_filter_prefix(keep.len(), (e + 1) as nat, p);
    assert(filter_ids(keep.len(), p)[a.len() as int] == filter_ids((e + 1) as nat, p)[a.len() as int]);
}

/// A counter that moves from `b` to `b + 1` (mod `k`) where `inset(b, i)` holds, and stays
/// otherwise, passes through `a` on its way from at most `a` back to 0, and leaves it at a
/// position where `inset(a, _)` holds.
proof fn lemma_counter_passes(
    inset: spec_fn(int, nat) -> bool,
    c: spec_fn(nat) -> int,
    a: int,
    k: int,
    m: nat,
    q: nat,
) -> (j: nat)
    requires
        forall|i: nat| #[trigger] c(i + 1) == if inset(c(i), i) {
            (c(i) + 1) % k
        } else {
            c(i)
        },
        1 <= c(m) <= a < k,
        m <= q,
        c(q) == 0,
    ensures
        m <= j < q,
        inset(a, j),
    decreases q - m,
{
    assert(c(m + 1) == if inset(c(m), m) {
        (c(m) + 1) % k
    } else {
        c(m)
    });
    if c(m) == a {
        if inset(a, m) {
            m
        } else {
            assert(c(m + 1) == a);
            lemma_counter_passes(inset, c, a, k, m + 1, q)
        }
    } else {
        if inset(c(m), m) {
            vstd::arithmetic::div_mod::lemma_small_mod((c(m) + 1) as nat, k as nat);
        }
        lemma_counter_passes(inset, c, a, k, m + 1, q)
    }
}

/// Soundness of the NBA: a trace with an accepting run of the NBA that `NBA::new` builds for
/// `f` satisfies `f` at its first position.
#[verifier::rlimit(100)]
pub proof fn lemma_nba_sound(n: NBA, f: Formula, w: spec_fn(nat, Formula) -> bool, run: spec_fn(nat) -> nat)
    requires
        n.gnba.built_from(f),
        n.degeneralized(),
        nba_size_ok(f),
        language_exact(f),
        is_nba_run(n, w, run),
        is_nba_accepting(n, run),
    ensures
        holds(f, w)(0),
{
    let g = n.gnba;
    let k = acc_count(g);
    let dg = deg_graph(g);
    let keep = parts_useful(dg, deg_init(g), deg_acc(g));
    let kp = |x: int| keep[x];
    let kept = filter_ids(dg.len(), kp);
    let ns = g.states@.len();
    assert(g.vectors().len() == ns);
    assert(g.states.len() == g.states@.len());
    crate::gnba::lemma_gnba_shape(g, f);
    assert(k >= 1);
    assert(ns * k <= usize::MAX);
    assert(dg.len() == ns * k);
    lemma_filter_ids(dg.len(), kp);
    let x = |i: nat| kept[run(i) as int] as nat;
    assert forall|i: nat| #![trigger x(i)] x(i) < dg.len() && keep[x(i) as int] && rank(keep, x(i) as int) == run(i) by {
        assert(run(i) < n.states@.len());
        let j = run(i) as int;
        assert(kept[j] < dg.len());
        assert(kp(kept[j] as int));
        lemma_kept_at(keep, kept[j] as int);
        let r = rank(keep, kept[j] as int) as int;
        assert(kept[r] == kept[j]);
        assert(kept.no_duplicates());
    }
    let sr = |i: nat| (x(i) / (k as nat)) as nat;
    let c = |i: nat| (x(i) as int) % k;
    assert forall|i: nat| #![trigger x(i)] sr(i) < ns && x(i) as int == sr(i) * k + c(i) && 0 <= c(i) < k by {
        crate::nba_build::lemma_code_parts(x(i) as int, k, ns as int);
    }
    // a deg transition into `e` from state `y`
    assert forall|y: int, e: usize| 0 <= y < dg.len() && #[trigger] dg[y].contains(e) implies {
        &&& g.succ_view(y / k).contains((e as int / k) as usize)
        &&& (e as int) % k == next_counter(g, y / k, y % k)
        &&& (e as int) < dg.len()
    } by {
        crate::nba_build::lemma_code_parts(y, k, ns as int);
        let succ = g.succ_view(y / k);
        let nc = next_counter(g, y / k, y % k);
        assert(0 <= nc < k);
        let idx = choose|idx: int| 0 <= idx < dg[y].len() && dg[y][idx] == e;
        assert(succ[idx] < ns);
        crate::nba_build::lemma_pair_code(succ[idx] as int, nc, k, ns as int);
        assert(dg[y][idx] == (succ[idx] * k + nc) as usize);
        assert(succ.contains(succ[idx]));
    }
    // the first state
    let ginit = deg_init(g);
    assert forall|q: int| 0 <= q < ginit.len() implies #[trigger] ginit[q] < keep.len() && (ginit[q] as int) / k < ns
        && g.initial_states@.contains(((ginit[q] as int) / k) as usize) by {
        let s0 = g.initial_states@[q];
        assert(s0 < ns);
        crate::nba_build::lemma_pair_code(s0 as int, 0, k, ns as int);
        assert(g.initial_states@.contains(s0));
    }
    let e0 = lemma_prune_member(ginit, keep, run(0) as usize);
    lemma_kept_at(keep, e0);
    assert(x(0) == e0);
    let q0 = choose|q: int| 0 <= q < ginit.len() && ginit[q] == e0 as usize;
    assert(g.initial_states@.contains(sr(0) as usize));
    // the moves
    assert forall|i: nat| g.succ_view(sr(i) as int).contains(#[trigger] sr(i + 1) as usize) && c(i + 1) == next_counter(g, sr(i) as int, c(i)) by {
        let j = run(i) as int;
        assert(run(i) < n.states@.len());
        assert(n.graph_view()[j] == prune_list(dg[kept[j] as int], keep));
        let y = x(i) as int;
        assert forall|t: int| 0 <= t < dg[y].len() implies #[trigger] dg[y][t] < keep.len() by {
            assert(dg[y].contains(dg[y][t]));
        }
        let e = lemma_prune_member(dg[y], keep, run(i + 1) as usize);
        lemma_kept_at(keep, e);
        assert(x(i + 1) == e);
        assert(dg[y].contains(e as usize));
        assert(y / k == sr(i));
        assert(y % k == c(i)) by {
            vstd::arithmetic::div_mod::lemma_fundamental_div_mod_converse(y, k, sr(i) as int, c(i));
        }
    }
    // the labels
    assert forall|i: nat| spec_label(g.vectors()[#[trigger] sr(i) as int], g.closure_view()) == trace_label(g.closure_view(), w, i) by {
        let j = run(i) as int;
        assert(run(i) < n.states@.len());
        assert(n.states@[j].formulas@ == deg_formulas(g)[kept[j] as int]);
        assert(x(i) < dg.len());
    }
    assert(is_run(g, w, sr));
    // the acceptance sets
    let dacc = deg_acc(g);
    assert forall|q: int| 0 <= q < dacc.len() implies #[trigger] dacc[q] < keep.len() by {
        lemma_filter_ids(deg_size(g), acc_pred(g));
    }
    assert forall|i: nat| #![trigger x(i)] n.acceptance_condition.states@.contains(run(i) as usize) ==> c(i) == 0 && g.acceptance_view()[0].contains(sr(i) as usize) by {
        if n.acceptance_condition.states@.contains(run(i) as usize) {
            let e = lemma_prune_member(dacc, keep, run(i) as usize);
            lemma_kept_at(keep, e);
            assert(x(i) == e);
            lemma_filter_ids(deg_size(g), acc_pred(g));
            assert(acc_pred(g)(e));
            assert((e / k) as usize == sr(i) as usize);
        }
    }
    let inset = |b: int, i: nat| g.acceptance_view()[b].contains(sr(i) as usize);
    assert forall|i: nat| #[trigger] c(i + 1) == if inset(c(i), i) {
        (c(i) + 1) % k
    } else {
        c(i)
    } by {
        assert(c(i + 1) == next_counter(g, sr(i) as int, c(i)));
    }
    assert forall|a: int, i: nat| 0 <= a < g.acceptance_view().len() implies #[trigger] visits_after(g.acceptance_view()[a], sr, i) by {
        assert(visits_after(n.acceptance_condition.states@, run, i));
        let p = choose|p: nat| i <= p && #[trigger] n.acceptance_condition.states@.contains(run(p) as usize);
        assert(x(p) == x(p));
        if a == 0 {
            assert(g.acceptance_view()[0].contains(sr(p) as usize));
        } else {
            assert(c(p + 1) == (c(p) + 1) % k);
            vstd::arithmetic::div_mod::lemma_small_mod(1, k as nat);
            assert(c(p + 1) == 1);
            assert(visits_after(n.acceptance_condition.states@, run, p + 1));
            let q = choose|q: nat| p + 1 <= q && #[trigger] n.acceptance_condition.states@.contains(run(q) as usize);
            assert(x(q) == x(q));
            let j = lemma_counter_passes(inset, c, a, k, p + 1, q);
            assert(g.acceptance_view()[a].contains(sr(j) as usize));
        }
    }
    assert(is_accepting(g, sr));
    lemma_gnba_sound(g, f, w, sr);
}

/// A kept member of a list is in the pruned list by its new number.
proof fn lemma_prune_keeps(s: Seq<usize>, keep: Seq<bool>, e: int)
    requires
        s.contains(e as usize),
        0 <= e < keep.len(),
        keep[e],
        forall|k: int| 0 <= k < s.len() ==> #[trigger] s[k] < keep.len(),
        keep.len() <= usize::MAX,
    ensures
        prune_list(s, keep).contains(rank(keep, e) as usize),
    decreases s.len(),
{
    let t = s.drop_last();
    let p = prune_list(t, keep);
    assert(s[s.len() - 1] < keep.len());
    if s.last() == e as usize {
        assert(s.last() as int == e);
        let r = p.push(rank(keep, e) as usize);
        assert(prune_list(s, keep) == r);
        assert(r[p.len() as int] == rank(keep, e) as usize);
    } else {
        let j = choose|j: int| 0 <= j < s.len() && s[j] == e as usize;
        assert(t[j] == e as usize);
        assert forall|k: int| 0 <= k < t.len() implies #[trigger] t[k] < keep.len() by {
            assert(t[k] == s[k]);
        }
        lemma_prune_keeps(t, keep, e);
        let q = choose|q: int| 0 <= q < p.len() && p[q] == rank(keep, e) as usize;
        if keep[s.last() as int] {
            let r = p.push(rank(keep, s.last() as int) as usize);
            assert(r[q] == p[q]);
        }
    }
}

/// Values below `n` at more than `n` places repeat.
pub(crate) proof fn lemma_pigeonhole(s: Seq<nat>, n: nat) -> (pr: (int, int))
    requires
        s.len() > n,
        forall|i: int| 0 <= i < s.len() ==> #[trigger] s[i] < n,
    ensures
        0 <= pr.0 < pr.1 < s.len(),
        s[pr.0] == s[pr.1],
    decreases n,
{
    let last = s.len() - 1;
    let v = s[last];
    if exists|j: int| 0 <= j < last && s[j] == v {
        let j = choose|j: int| 0 <= j < last && s[j] == v;
        (j, last)
    } else {
        let t = Seq::new(last as nat, |j: int| if s[j] > v { (s[j] - 1) as nat } else { s[j] });
        assert forall|i: int| 0 <= i < t.len() implies #[trigger] t[i] < n - 1 by {
            assert(s[i] != v);
        }
        let (a, b) = lemma_pigeonhole(t, (n - 1) as nat);
        assert(s[a] != v && s[b] != v);
        (a, b)
    }
}

/// The first visit of `x` to `acc` from position `j` on.
pub open spec fn next_visit(acc: Seq<usize>, x: spec_fn(nat) -> nat, j: nat) -> nat {
    choose|p: nat| j <= p && #[trigger] acc.contains(x(p) as usize)
}

/// The `t`-th visit of `x` to `acc` from position `i` on.
pub open spec fn visit_at(acc: Seq<usize>, x: spec_fn(nat) -> nat, i: nat, t: nat) -> nat
    decreases t,
{
    if t == 0 {
        next_visit(acc, x, i)
    } else {
        next_visit(acc, x, visit_at(acc, x, i, (t - 1) as nat) + 1)
    }
}

proof fn lemma_visit_at(acc: Seq<usize>, x: spec_fn(nat) -> nat, i: nat, t: nat)
    requires
        forall|j: nat| #[trigger] visits_after(acc, x, j),
    ensures
        i + t <= visit_at(acc, x, i, t),
        acc.contains(x(visit_at(acc, x, i, t)) as usize),
        forall|u: nat| u < t ==> #[trigger] visit_at(acc, x, i, u) < visit_at(acc, x, i, t),
    decreases t,
{
    if t == 0 {
        assert(visits_after(acc, x, i));
    } else {
        lemma_visit_at(acc, x, i, (t - 1) as nat);
        assert(visits_after(acc, x, visit_at(acc, x, i, (t - 1) as nat) + 1));
    }
}

/// A run that visits a finite set of states infinitely often visits one of them twice after
/// any position.
proof fn lemma_repeat_visit(acc: Seq<usize>, x: spec_fn(nat) -> nat, bound: nat, i: nat) -> (pq: (nat, nat))
    requires
        forall|j: nat| #[trigger] visits_after(acc, x, j),
        forall|j: nat| #[trigger] x(j) < bound,
    ensures
        i <= pq.0 < pq.1,
        x(pq.0) == x(pq.1),
        acc.contains(x(pq.0) as usize),
{
    let sq = Seq::new(bound + 1, |t: int| x(visit_at(acc, x, i, t as nat)));
    let (a, b) = lemma_pigeonhole(sq, bound);
    lemma_visit_at(acc, x, i, a as nat);
    lemma_visit_at(acc, x, i, b as nat);
    (visit_at(acc, x, i, a as nat), visit_at(acc, x, i, b as nat))
}

/// `n` has an accepting run on the trace `w`.
pub open spec fn nba_accepts_trace(n: NBA, w: spec_fn(nat, Formula) -> bool) -> bool {
    exists|run: spec_fn(nat) -> nat| is_nba_run(n, w, run) && is_nba_accepting(n, run)
}

/// The counter that runs along the GNBA run `s` through the acceptance sets, from 0.
pub open spec fn counter(g: GNBA, s: spec_fn(nat) -> nat, i: nat) -> int
    decreases i,
{
    if i == 0 {
        0
    } else {
        next_counter(g, s((i - 1) as nat) as int, counter(g, s, (i - 1) as nat))
    }
}

proof fn lemma_counter_range(g: GNBA, s: spec_fn(nat) -> nat, i: nat)
    requires
        acc_count(g) >= 1,
    ensures
        0 <= counter(g, s, i) < acc_count(g),
    decreases i,
{
    if i > 0 {
        lemma_counter_range(g, s, (i - 1) as nat);
        let c = counter(g, s, (i - 1) as nat);
        vstd::arithmetic::div_mod::lemma_mod_bound(c + 1, acc_count(g));
    }
}

/// From position `m`, the counter stays until the run meets the set it counts.
proof fn lemma_first_move(g: GNBA, s: spec_fn(nat) -> nat, m: nat, j: nat) -> (r: nat)
    requires
        m <= j,
        g.acceptance_view()[counter(g, s, m)].contains(s(j) as usize),
    ensures
        m <= r <= j,
        counter(g, s, r) == counter(g, s, m),
        g.acceptance_view()[counter(g, s, r)].contains(s(r) as usize),
    decreases j - m,
{
    if g.acceptance_view()[counter(g, s, m)].contains(s(m) as usize) {
        m
    } else {
        assert(counter(g, s, m + 1) == counter(g, s, m));
        lemma_first_move(g, s, m + 1, j)
    }
}

/// Along an accepting GNBA run the counter comes back to 0 at a state of the first set.
proof fn lemma_reach_zero(g: GNBA, s: spec_fn(nat) -> nat, m: nat) -> (j: nat)
    requires
        acc_count(g) >= 1,
        is_accepting(g, s),
    ensures
        m <= j,
        counter(g, s, j) == 0,
        g.acceptance_view()[0].contains(s(j) as usize),
    decreases if counter(g, s, m) == 0 {
        0
    } else {
        acc_count(g) - counter(g, s, m)
    },
{
    let k = acc_count(g);
    lemma_counter_range(g, s, m);
    let b = counter(g, s, m);
    assert(visits_after(g.acceptance_view()[b], s, m));
    let jj = choose|jj: nat| m <= jj && #[trigger] g.acceptance_view()[b].contains(s(jj) as usize);
    let r = lemma_first_move(g, s, m, jj);
    if b == 0 {
        r
    } else {
        assert(counter(g, s, r + 1) == (b + 1) % k);
        if b + 1 == k {
            vstd::arithmetic::div_mod::lemma_mod_self_0(k);
            assert(counter(g, s, r + 1) == 0);
        } else {
            vstd::arithmetic::div_mod::lemma_small_mod((b + 1) as nat, k as nat);
            assert(counter(g, s, r + 1) == b + 1);
        }
        lemma_reach_zero(g, s, r + 1)
    }
}

/// The run of the counting automaton along the GNBA run `s`.
pub open spec fn deg_run(g: GNBA, s: spec_fn(nat) -> nat) -> spec_fn(nat) -> nat {
    |i: nat| (s(i) * acc_count(g) + counter(g, s, i)) as nat
}

/// Along an accepting run of the GNBA, the counting automaton has an accepting run.
proof fn lemma_deg_run(g: GNBA, w: spec_fn(nat, Formula) -> bool, s: spec_fn(nat) -> nat)
    requires
        g.wf(),
        acc_count(g) >= 1,
        g.states@.len() * acc_count(g) <= usize::MAX,
        is_run(g, w, s),
        is_accepting(g, s),
    ensures
        forall|i: nat|
            #![trigger deg_run(g, s)(i)]
            deg_run(g, s)(i) < deg_size(g) && deg_run(g, s)(i) / (acc_count(g) as nat) == s(i)
                && (deg_run(g, s)(i) as int) % acc_count(g) == counter(g, s, i),
        forall|i: nat| deg_graph(g)[deg_run(g, s)(i) as int].contains(#[trigger] deg_run(g, s)(i + 1) as usize),
        deg_init(g).contains(deg_run(g, s)(0) as usize),
        forall|i: nat| #[trigger] visits_after(deg_acc(g), deg_run(g, s), i),
        forall|y: int, t: int|
            0 <= y < deg_size(g) && 0 <= t < deg_graph(g)[y].len() ==> #[trigger] deg_graph(g)[y][t]
                < deg_size(g),
{
    let k = acc_count(g);
    let ns = g.states@.len();
    let x = deg_run(g, s);
    let dg = deg_graph(g);
    assert forall|i: nat|
        #![trigger x(i)]
        x(i) < deg_size(g) && x(i) / (k as nat) == s(i) && (x(i) as int) % k == counter(g, s, i) by {
        lemma_counter_range(g, s, i);
        assert(s(i) < ns);
        crate::nba_build::lemma_pair_code(s(i) as int, counter(g, s, i), k, ns as int);
    }
    assert forall|y: int, t: int|
        0 <= y < deg_size(g) && 0 <= t < dg[y].len() implies #[trigger] dg[y][t] < deg_size(g) by {
        crate::nba_build::lemma_code_parts(y, k, ns as int);
        let succ = g.succ_view(y / k);
        let nc = next_counter(g, y / k, y % k);
        assert(0 <= nc < k);
        assert(succ[t] < ns);
        crate::nba_build::lemma_pair_code(succ[t] as int, nc, k, ns as int);
    }
    assert forall|i: nat| dg[x(i) as int].contains(#[trigger] x(i + 1) as usize) by {
        assert(x(i) == x(i));
        assert(x(i + 1) == x(i + 1));
        let y = x(i) as int;
        let succ = g.succ_view(s(i) as int);
        assert(succ.contains(s(i + 1) as usize));
        let t = choose|t: int| 0 <= t < succ.len() && succ[t] == s(i + 1) as usize;
        assert(y / k == s(i));
        assert(y % k == counter(g, s, i));
        assert(counter(g, s, i + 1) == next_counter(g, s(i) as int, counter(g, s, i)));
        assert(dg[y][t] == (succ[t] * k + next_counter(g, y / k, y % k)) as usize);
    }
    let q = choose|q: int| 0 <= q < g.initial_states@.len() && g.initial_states@[q] == s(0) as usize;
    assert(deg_init(g)[q] == x(0) as usize);
    assert forall|i: nat| #[trigger] visits_after(deg_acc(g), x, i) by {
        let j = lemma_reach_zero(g, s, i);
        assert(x(j) == x(j));
        lemma_filter_ids(deg_size(g), acc_pred(g));
        assert(acc_pred(g)(x(j) as int));
        assert(deg_acc(g).contains(x(j) as usize));
    }
}

/// Along a run of the counting automaton that visits its accepting states infinitely often,
/// every state lies on an accepting run.
proof fn lemma_deg_useful(g: GNBA, x: spec_fn(nat) -> nat)
    requires
        deg_size(g) <= usize::MAX,
        forall|i: nat| #[trigger] x(i) < deg_size(g),
        forall|i: nat| deg_graph(g)[x(i) as int].contains(#[trigger] x(i + 1) as usize),
        deg_init(g).contains(x(0) as usize),
        forall|i: nat| #[trigger] visits_after(deg_acc(g), x, i),
        forall|y: int, t: int|
            0 <= y < deg_size(g) && 0 <= t < deg_graph(g)[y].len() ==> #[trigger] deg_graph(g)[y][t]
                < deg_size(g),
    ensures
        forall|i: nat| #[trigger] parts_useful(deg_graph(g), deg_init(g), deg_acc(g))[x(i) as int],
{
    let dg = deg_graph(g);
    assert(crate::graph::valid_graph(dg)) by {
        assert forall|u: int, t: int| 0 <= u < dg.len() && 0 <= t < dg[u].len() implies #[trigger] dg[u][t] < dg.len() by {}
    }
    assert forall|a: nat, b: nat| a <= b implies #[trigger] reaches(dg, x(a) as int, x(b) as int) by {
        lemma_run_reaches(dg, x, a, b);
    }
    assert forall|i: nat| #[trigger] parts_useful(dg, deg_init(g), deg_acc(g))[x(i) as int] by {
        let acc = deg_acc(g);
        let init = deg_init(g);
        let q = choose|q: int| 0 <= q < init.len() && init[q] == x(0) as usize;
        assert(reaches(dg, x(0) as int, x(i) as int));
        assert(reaches(dg, init[q] as int, x(i) as int));
        let (p, qq) = lemma_repeat_visit(acc, x, deg_size(g), i);
        let y = x(p) as int;
        assert(reaches(dg, x(i) as int, y));
        assert(dg[y].contains(x(p + 1) as usize));
        let row = dg[y];
        let t = choose|t: int| 0 <= t < row.len() && #[trigger] row[t] == x(p + 1) as usize;
        assert(has_edge(dg, y, x(p + 1) as int));
        if x(p + 1) as int == y {
            assert(has_edge(dg, y, y));
        } else {
            lemma_reaches_refl(dg, y);
            lemma_reaches_step(dg, y, y, t);
            assert(reaches(dg, x(p + 1) as int, x(qq) as int));
            assert(mutual(dg, y, x(p + 1) as int));
        }
        lemma_reaches_refl(dg, y);
        assert(mutual(dg, y, y));
        assert(on_accepting_cycle_scc(dg, acc, y));
        assert(useful_state(dg, init, acc, x(i) as int));
    }
}

/// A run of a graph reaches, from each position, every later position.
proof fn lemma_run_reaches(dg: Seq<Seq<usize>>, x: spec_fn(nat) -> nat, a: nat, b: nat)
    requires
        crate::graph::valid_graph(dg),
        dg.len() <= usize::MAX,
        forall|i: nat| #[trigger] x(i) < dg.len(),
        forall|i: nat| dg[x(i) as int].contains(#[trigger] x(i + 1) as usize),
        a <= b,
    ensures
        reaches(dg, x(a) as int, x(b) as int),
    decreases b - a,
{
    if a == b {
        lemma_reaches_refl(dg, x(a) as int);
    } else {
        lemma_run_reaches(dg, x, a, (b - 1) as nat);
        let bm = (b - 1) as nat;
        assert(x(bm) < dg.len());
        assert(dg[x(bm) as int].contains(x(bm + 1) as usize));
        let row = dg[x(bm) as int];
        let t = choose|t: int| 0 <= t < row.len() && #[trigger] row[t] == x(bm + 1) as usize;
        lemma_reaches_step(dg, x(a) as int, x(bm) as int, t);
    }
}

/// Completeness of the NBA: every trace whose first position satisfies `f` has an accepting
/// run of the NBA that `NBA::new` builds for `f`.
#[verifier::rlimit(100)]
pub proof fn lemma_nba_complete(n: NBA, f: Formula, w: spec_fn(nat, Formula) -> bool)
    requires
        n.gnba.built_from(f),
        n.degeneralized(),
        nba_size_ok(f),
        language_exact(f),
        holds(f, w)(0),
    ensures
        nba_accepts_trace(n, w),
{
    let g = n.gnba;
    let k = acc_count(g);
    let dg = deg_graph(g);
    let keep = parts_useful(dg, deg_init(g), deg_acc(g));
    let kp = |x: int| keep[x];
    let kept = filter_ids(dg.len(), kp);
    let ns = g.states@.len();
    assert(g.vectors().len() == ns);
    assert(g.states.len() == g.states@.len());
    crate::gnba::lemma_gnba_shape(g, f);
    assert(k >= 1);
    assert(ns * k <= usize::MAX);
    assert(dg.len() == ns * k);
    lemma_gnba_complete(g, f, w);
    let s = trace_run(g, w);
    lemma_deg_run(g, w, s);
    let x = deg_run(g, s);
    assert forall|i: nat| #[trigger] x(i) < deg_size(g) by {
        assert(x(i) == x(i));
    }
    lemma_deg_useful(g, x);
    let r = |i: nat| rank(keep, x(i) as int) as nat;
    assert forall|i: nat| #![trigger r(i)] r(i) < n.states@.len() && kept[r(i) as int] == x(i) && keep[x(i) as int] by {
        assert(x(i) == x(i));
        assert(parts_useful(dg, deg_init(g), deg_acc(g))[x(i) as int]);
        lemma_kept_at(keep, x(i) as int);
    }
    let ginit = deg_init(g);
    assert forall|q: int| 0 <= q < ginit.len() implies #[trigger] ginit[q] < keep.len() by {
        let s0 = g.initial_states@[q];
        assert(s0 < ns);
        crate::nba_build::lemma_pair_code(s0 as int, 0, k, ns as int);
    }
    assert(r(0) == r(0));
    lemma_prune_keeps(ginit, keep, x(0) as int);
    assert(n.initial_states@.contains(r(0) as usize));
    assert forall|i: nat| n.graph_view()[r(i) as int].contains(#[trigger] r(i + 1) as usize) by {
        assert(r(i) == r(i));
        assert(r(i + 1) == r(i + 1));
        let j = r(i) as int;
        assert(n.graph_view()[j] == prune_list(dg[kept[j] as int], keep));
        let y = x(i) as int;
        assert forall|t: int| 0 <= t < dg[y].len() implies #[trigger] dg[y][t] < keep.len() by {
            assert(x(i) == x(i));
        }
        lemma_prune_keeps(dg[y], keep, x(i + 1) as int);
    }
    assert forall|i: nat|
        spec_label(n.states@[#[trigger] r(i) as int].formulas@, fviews(n.closure@)) == trace_label(
            fviews(n.closure@),
            w,
            i,
        ) by {
        assert(r(i) == r(i));
        let j = r(i) as int;
        assert(n.states@[j].formulas@ == deg_formulas(g)[kept[j] as int]);
        assert(x(i) == x(i));
        assert(s(i) < ns);
    }
    let dacc = deg_acc(g);
    assert forall|q: int| 0 <= q < dacc.len() implies #[trigger] dacc[q] < keep.len() by {
        lemma_filter_ids(deg_size(g), acc_pred(g));
    }
    assert forall|i: nat| #[trigger] visits_after(n.acceptance_condition.states@, r, i) by {
        assert(visits_after(dacc, x, i));
        let j = choose|j: nat| i <= j && #[trigger] dacc.contains(x(j) as usize);
        assert(r(j) == r(j));
        lemma_prune_keeps(dacc, keep, x(j) as int);
        assert(n.acceptance_condition.states@.contains(r(j) as usize));
    }
    assert(is_nba_run(n, w, r));
    assert(is_nba_accepting(n, r));
}

/// The NBA built for `f` accepts exactly the traces that satisfy `f` at their first
/// position.
pub proof fn lemma_nba_language(n: NBA, f: Formula, w: spec_fn(nat, Formula) -> bool)
    requires
        n.gnba.built_from(f),
        n.degeneralized(),
        nba_size_ok(f),
        language_exact(f),
    ensures
        nba_accepts_trace(n, w) <==> holds(f, w)(0),
{
    if nba_accepts_trace(n, w) {
        let run = choose|run: spec_fn(nat) -> nat| is_nba_run(n, w, run) && is_nba_accepting(n, run);
        lemma_nba_sound(n, f, w, run);
    }
    if holds(f, w)(0) {
        lemma_nba_complete(n, f, w);
    }
}

/// The trace whose atoms at position `i` have the values that `vec(i)` gives them in the
/// closure `cl`; atoms outside the closure are false.
pub open spec fn label_trace(cl: Seq<Formula>, vec: spec_fn(nat) -> Seq<bool>) -> spec_fn(
    nat,
    Formula,
) -> bool {
    |i: nat, a: Formula|
        match first_index(cl, a) {
            Some(k) => vec(i)[k],
            None => false,
        }
}

proof fn lemma_label_trace(cl: Seq<Formula>, vec: spec_fn(nat) -> Seq<bool>, i: nat)
    requires
        cl.no_duplicates(),
    ensures
        trace_label(cl, label_trace(cl, vec), i) == spec_label(vec(i), cl),
{
    let w = label_trace(cl, vec);
    let v2 = Seq::new(cl.len(), |k: int| w(i, cl[k]));
    assert forall|k: int| 0 <= k < cl.len() && crate::gnba::is_label_atom(#[trigger] cl[k]) implies v2[k] == vec(i)[k] by {
        lemma_first_index(cl, cl[k]);
        let j = first_index(cl, cl[k])->0;
        if j != k {
            assert(cl[j] == cl[k]);
        }
    }
    lemma_label_agree(v2, vec(i), cl, cl.len());
}

/// The index into `st + st2[1..]` at position `i` of the run that goes round the loop from
/// `ci` forever.
pub open spec fn lasso_index(ci: int, len: int, i: nat) -> int {
    if i < ci {
        i as int
    } else {
        ci + (i - ci) % (len - ci)
    }
}

pub(crate) proof fn lemma_mod_step(x: int, p: int)
    requires
        0 <= x,
        0 < p,
    ensures
        0 <= x % p < p,
        x % p + 1 < p ==> (x + 1) % p == x % p + 1,
        x % p + 1 == p ==> (x + 1) % p == 0,
{
    vstd::arithmetic::div_mod::lemma_fundamental_div_mod(x, p);
    vstd::arithmetic::div_mod::lemma_mod_bound(x, p);
    let q = x / p;
    let m = x % p;
    if m + 1 < p {
        vstd::arithmetic::div_mod::lemma_fundamental_div_mod_converse(x + 1, p, q, m + 1);
    } else if m + 1 == p {
        assert(x + 1 == (q + 1) * p + 0) by (nonlinear_arith)
            requires
                x == p * q + m,
                m + 1 == p,
        ;
        vstd::arithmetic::div_mod::lemma_fundamental_div_mod_converse(x + 1, p, q + 1, 0);
    }
}

/// A lasso of the NBA unrolls into an accepting run.
proof fn lemma_lasso_run(n: NBA, st: Seq<usize>, st2: Seq<usize>) -> (run: spec_fn(nat) -> nat)
    requires
        n.nba_wf(),
        aut_lasso(n, st, st2),
    ensures
        n.initial_states@.contains(run(0) as usize),
        forall|i: nat| #[trigger] run(i) < n.states@.len(),
        forall|i: nat| n.graph_view()[run(i) as int].contains(#[trigger] run(i + 1) as usize),
        is_nba_accepting(n, run),
{
    let g = n.graph_view();
    let u = st + st2.skip(1);
    let len = u.len() as int;
    let c = choose|c: usize| st.contains(c) && #[trigger] g[st2.last() as int].contains(c);
    let ci = choose|ci: int| 0 <= ci < st.len() && st[ci] == c;
    let p = len - ci;
    assert(p >= 1);
    assert(u.last() == st2.last()) by {
        if st2.len() > 1 {
            assert(u[len - 1] == st2[st2.len() - 1]);
        } else {
            assert(u[len - 1] == st[st.len() - 1]);
        }
    }
    assert(graph_walk(g, u)) by {
        assert forall|i: int| 0 <= i < u.len() implies #[trigger] u[i] < g.len() by {
            if i >= st.len() {
                assert(u[i] == st2[i - st.len() + 1]);
            }
        }
        assert forall|i: int| 0 <= i < u.len() - 1 implies g[u[i] as int].contains(#[trigger] u[i + 1]) by {
            if i < st.len() - 1 {
                assert(u[i] == st[i] && u[i + 1] == st[i + 1]);
            } else if i == st.len() - 1 {
                assert(u[i] == st2[0] && u[i + 1] == st2[1]);
            } else {
                assert(u[i] == st2[i - st.len() + 1] && u[i + 1] == st2[i - st.len() + 2]);
            }
        }
    }
    let run = |i: nat| u[lasso_index(ci, len, i)] as nat;
    assert forall|i: nat| 0 <= #[trigger] lasso_index(ci, len, i) < len by {
        if i >= ci {
            lemma_mod_step(i - ci, p);
        }
    }
    assert forall|i: nat| #[trigger] run(i) < n.states@.len() by {
        assert(0 <= lasso_index(ci, len, i) < len);
        assert(u[lasso_index(ci, len, i)] < g.len());
    }
    assert(lasso_index(ci, len, 0) == 0) by {
        if ci == 0 {
            vstd::arithmetic::div_mod::lemma_small_mod(0, p as nat);
        }
    }
    assert(run(0) as usize == st[0]);
    assert forall|i: nat| g[run(i) as int].contains(#[trigger] run(i + 1) as usize) by {
        let a = lasso_index(ci, len, i);
        let b = lasso_index(ci, len, i + 1);
        assert(0 <= a < len && 0 <= b < len);
        if i + 1 < ci {
            assert(b == a + 1);
        } else if i + 1 == ci {
            vstd::arithmetic::div_mod::lemma_small_mod(0, p as nat);
            assert(b == a + 1);
        } else {
            lemma_mod_step(i - ci, p);
            assert((i + 1 - ci) == (i - ci) + 1);
            if (i - ci) % p + 1 < p {
                assert(b == a + 1);
            } else {
                assert(a == len - 1);
                assert(b == ci);
                assert(u[b] == c);
            }
        }
    }
    let la = st.len() - 1;
    assert(u[la] == st.last());
    assert forall|i: nat| #[trigger] visits_after(n.acceptance_condition.states@, run, i) by {
        let j = (la + p * (i + 1)) as nat;
        assert(p * (i + 1) >= i + 1) by (nonlinear_arith)
            requires
                p >= 1,
        ;
        assert(j >= i);
        assert(j >= ci);
        assert(j - ci == p * (i + 1) + (la - ci));
        vstd::arithmetic::div_mod::lemma_fundamental_div_mod_converse(j - ci, p, (i + 1) as int, la - ci);
        assert(lasso_index(ci, len, j) == la);
        assert(run(j) as usize == st.last());
        assert(n.acceptance_condition.states@.contains(run(j) as usize));
    }
    run
}

/// An accepting run of the NBA folds into a lasso.
proof fn lemma_run_lasso(n: NBA, run: spec_fn(nat) -> nat) -> (sts: (Seq<usize>, Seq<usize>))
    requires
        n.nba_wf(),
        n.initial_states@.contains(run(0) as usize),
        forall|i: nat| #[trigger] run(i) < n.states@.len(),
        forall|i: nat| n.graph_view()[run(i) as int].contains(#[trigger] run(i + 1) as usize),
        is_nba_accepting(n, run),
    ensures
        aut_lasso(n, sts.0, sts.1),
{
    let g = n.graph_view();
    assert(n.states.len() == n.states@.len());
    let (p, q) = lemma_repeat_visit(n.acceptance_condition.states@, run, n.states@.len(), 0);
    let st = Seq::new((p + 1) as nat, |i: int| run(i as nat) as usize);
    let st2 = Seq::new((q - p) as nat, |i: int| run((p + i) as nat) as usize);
    assert forall|i: nat| (#[trigger] run(i) as usize) as nat == run(i) by {
        assert(run(i) < n.states@.len());
    }
    assert(graph_walk(g, st)) by {
        assert forall|i: int| 0 <= i < st.len() implies #[trigger] st[i] < g.len() by {
            assert(run(i as nat) < n.states@.len());
        }
        assert forall|i: int| 0 <= i < st.len() - 1 implies g[st[i] as int].contains(#[trigger] st[i + 1]) by {
            assert(g[run(i as nat) as int].contains(run((i + 1) as nat) as usize));
        }
    }
    assert(graph_walk(g, st2)) by {
        assert forall|i: int| 0 <= i < st2.len() implies #[trigger] st2[i] < g.len() by {
            assert(run((p + i) as nat) < n.states@.len());
        }
        assert forall|i: int| 0 <= i < st2.len() - 1 implies g[st2[i] as int].contains(#[trigger] st2[i + 1]) by {
            assert(g[run((p + i) as nat) as int].contains(run(((p + i) + 1) as nat) as usize));
        }
    }
    assert(st.last() == run(p) as usize);
    assert(st2.last() == run((q - 1) as nat) as usize);
    assert(g[st2.last() as int].contains(run(q) as usize)) by {
        assert(g[run((q - 1) as nat) as int].contains(run(((q - 1) as nat + 1) as nat) as usize));
    }
    assert(st.contains(run(q) as usize)) by {
        assert(st[p as int] == run(p) as usize);
    }
    (st, st2)
}

/// The NBA built for `f` has an accepting lasso exactly when some trace satisfies `f`.
pub proof fn lemma_nba_lasso_sat(n: NBA, f: Formula)
    requires
        nba_for(n, f),
        nba_size_ok(f),
        language_exact(f),
    ensures
        (exists|st: Seq<usize>, st2: Seq<usize>| #[trigger] aut_lasso(n, st, st2)) <==> (exists|
            w: spec_fn(nat, Formula) -> bool,
        | #[trigger] holds(f, w)(0)),
{
    let cl = fviews(n.closure@);
    lemma_closure_no_dup(spec_automaton_formula(f));
    assert(cl == n.gnba.closure_view());
    if exists|st: Seq<usize>, st2: Seq<usize>| #[trigger] aut_lasso(n, st, st2) {
        let (st, st2) = choose|st: Seq<usize>, st2: Seq<usize>| #[trigger] aut_lasso(n, st, st2);
        let run = lemma_lasso_run(n, st, st2);
        let vec = |i: nat| n.states@[run(i) as int].formulas@;
        let w = label_trace(cl, vec);
        assert forall|i: nat|
            spec_label(n.states@[#[trigger] run(i) as int].formulas@, cl) == trace_label(cl, w, i) by {
            lemma_label_trace(cl, vec, i);
        }
        assert(is_nba_run(n, w, run));
        assert(nba_accepts_trace(n, w));
        lemma_nba_language(n, f, w);
        assert(holds(f, w)(0));
    }
    if exists|w: spec_fn(nat, Formula) -> bool| #[trigger] holds(f, w)(0) {
        let w = choose|w: spec_fn(nat, Formula) -> bool| #[trigger] holds(f, w)(0);
        lemma_nba_language(n, f, w);
        let run = choose|run: spec_fn(nat) -> nat| is_nba_run(n, w, run) && is_nba_accepting(n, run);
        let (st, st2) = lemma_run_lasso(n, run);
        assert(aut_lasso(n, st, st2));
    }
}

} // verus!
