use vstd::prelude::*;

use crate::closure::fviews;
use crate::gnba::{filter_ids, is_label_atom, label_upto, lemma_filter_ids, spec_label};
use crate::language::{language_exact, trace_label, visits_after};
use crate::ltl_parser::Formula;
use crate::marking_label::{eval_bool, lemma_find_name_absent, lemma_find_name_first, marking_label};
use crate::nba::{parts_useful, NBA};
use crate::nba_build::{acc_count, deg_acc, deg_entries, deg_graph, deg_init, nba_size_ok};
use crate::nba_language::{is_nba_accepting, is_nba_run, lemma_nba_language};
use crate::petri_net::{fire, lemma_enabled_successor, next_markings, occurrences, token_at, PetriNet};
use crate::product::{label_of, nba_for, nba_next_spec, pair_with, prod_from, prod_lasso, prod_roots, prod_succ, roots_from};
use crate::semantics::holds;

verus! {

/// The trace of a sequence of markings: each atom has at position `i` its value on the
/// marking `ms(i)`, and is false where it has none.
pub open spec fn marking_trace(net: PetriNet, ms: spec_fn(nat) -> Seq<u32>) -> spec_fn(nat, Formula) -> bool {
    |i: nat, a: Formula|
        match eval_bool(a, net, ms(i)) {
            Some(b) => b,
            None => false,
        }
}

/// `ms` is an infinite firing sequence of the net from its initial marking.
pub open spec fn firing_sequence(net: PetriNet, ms: spec_fn(nat) -> Seq<u32>) -> bool {
    &&& ms(0) == net.initial_tokens@
    &&& forall|i: nat| next_markings(net.arcs(), ms(i)).contains(#[trigger] ms(i + 1))
}

/// Every label atom of `cl` has a value on every marking of the net, and none is a bare
/// token count.
pub open spec fn atoms_evaluate(net: PetriNet, cl: Seq<Formula>) -> bool {
    forall|k: int, t: Seq<u32>|
        0 <= k < cl.len() && is_label_atom(cl[k]) ==> !(cl[k] is TokenCount) && (#[trigger] eval_bool(
            cl[k],
            net,
            t,
        )) is Some
}

proof fn lemma_marking_label_upto(net: PetriNet, cl: Seq<Formula>, t: Seq<u32>, w: spec_fn(Formula) -> bool, n: nat)
    requires
        n <= cl.len(),
        atoms_evaluate(net, cl),
        forall|a: Formula| #[trigger] eval_bool(a, net, t) is Some ==> eval_bool(a, net, t) == Some(w(a)),
    ensures
        marking_label(cl.take(n as int), net, t) == label_upto(Seq::new(cl.len(), |k: int| w(cl[k])), cl, n),
    decreases n,
{
    if n > 0 {
        lemma_marking_label_upto(net, cl, t, w, (n - 1) as nat);
        assert(cl.take(n as int).drop_last() =~= cl.take(n - 1));
        let f = cl[n - 1];
        assert(cl.take(n as int).last() == f);
        if is_label_atom(f) {
            assert(eval_bool(f, net, t) is Some);
        } else {
            match f {
                Formula::Var(_) | Formula::Fireable(_) | Formula::LessEqual(_, _) | Formula::GreaterEqual(_, _)
                | Formula::Greater(_, _) | Formula::Less(_, _) => {},
                _ => {},
            }
        }
    }
}

/// Where the atoms evaluate, the label of a marking is the label of its trace there.
proof fn lemma_marking_label(net: PetriNet, cl: Seq<Formula>, ms: spec_fn(nat) -> Seq<u32>, i: nat)
    requires
        atoms_evaluate(net, cl),
    ensures
        marking_label(cl, net, ms(i)) == trace_label(cl, marking_trace(net, ms), i),
{
    let w = marking_trace(net, ms);
    let wi = |a: Formula| w(i, a);
    lemma_marking_label_upto(net, cl, ms(i), wi, cl.len());
    assert(cl.take(cl.len() as int) =~= cl);
    assert(Seq::new(cl.len(), |k: int| wi(cl[k])) =~= Seq::new(cl.len(), |k: int| w(i, cl[k])));
}

/// `run` meets `good` at some position from `i` on.
pub open spec fn meets_after<T>(good: spec_fn(T) -> bool, run: spec_fn(nat) -> T, i: nat) -> bool {
    exists|j: nat| i <= j && #[trigger] good(run(j))
}

/// A lasso of steps unrolls into an infinite walk that meets `good` again and again.
proof fn lemma_unroll<T>(
    st: Seq<T>,
    st2: Seq<T>,
    step: spec_fn(T, T) -> bool,
    good: spec_fn(T) -> bool,
) -> (run: spec_fn(nat) -> T)
    requires
        st.len() >= 1,
        st2.len() >= 1,
        st2[0] == st.last(),
        good(st.last()),
        forall|i: int| 0 <= i < st.len() - 1 ==> #[trigger] step(st[i], st[i + 1]),
        forall|i: int| 0 <= i < st2.len() - 1 ==> #[trigger] step(st2[i], st2[i + 1]),
        exists|c: T| st.contains(c) && #[trigger] step(st2.last(), c),
    ensures
        run(0) == st[0],
        forall|i: nat| #[trigger] step(run(i), run(i + 1)),
        forall|i: nat| #[trigger] meets_after(good, run, i),
{
    let u = st + st2.skip(1);
    let len = u.len() as int;
    let c = choose|c: T| st.contains(c) && #[trigger] step(st2.last(), c);
    let ci = choose|ci: int| 0 <= ci < st.len() && st[ci] == c;
    let p = len - ci;
    assert(u.last() == st2.last()) by {
        if st2.len() > 1 {
            assert(u[len - 1] == st2[st2.len() - 1]);
        } else {
            assert(u[len - 1] == st[st.len() - 1]);
        }
    }
    assert forall|i: int| 0 <= i < u.len() - 1 implies #[trigger] step(u[i], u[i + 1]) by {
        if i < st.len() - 1 {
            assert(u[i] == st[i] && u[i + 1] == st[i + 1]);
        } else if i == st.len() - 1 {
            assert(u[i] == st2[0] && u[i + 1] == st2[1]);
        } else {
            assert(u[i] == st2[i - st.len() + 1] && u[i + 1] == st2[i - st.len() + 2]);
        }
    }
    let run = |i: nat| u[crate::nba_language::lasso_index(ci, len, i)];
    assert forall|i: nat| 0 <= #[trigger] crate::nba_language::lasso_index(ci, len, i) < len by {
        if i >= ci {
            crate::nba_language::lemma_mod_step(i - ci, p);
        }
    }
    assert(crate::nba_language::lasso_index(ci, len, 0) == 0) by {
        if ci == 0 {
            vstd::arithmetic::div_mod::lemma_small_mod(0, p as nat);
        }
    }
    assert forall|i: nat| #[trigger] step(run(i), run(i + 1)) by {
        let a = crate::nba_language::lasso_index(ci, len, i);
        let b = crate::nba_language::lasso_index(ci, len, i + 1);
        assert(0 <= a < len && 0 <= b < len);
        if i + 1 < ci {
            assert(b == a + 1);
        } else if i + 1 == ci {
            vstd::arithmetic::div_mod::lemma_small_mod(0, p as nat);
            assert(b == a + 1);
        } else {
            crate::nba_language::lemma_mod_step(i - ci, p);
            assert((i + 1 - ci) == (i - ci) + 1);
            if (i - ci) % p + 1 < p {
                assert(b == a + 1);
            } else {
                assert(a == len - 1);
                assert(b == ci);
                assert(u[b] == c);
            }
        }
    }
    let la = st.len() - 1;
    assert(u[la] == st.last());
    assert forall|i: nat| #[trigger] meets_after(good, run, i) by {
        let j = (la + p * (i + 1)) as nat;
        assert(p * (i + 1) >= i + 1) by (nonlinear_arith)
            requires
                p >= 1,
        ;
        assert(j - ci == p * (i + 1) + (la - ci));
        vstd::arithmetic::div_mod::lemma_fundamental_div_mod_converse(j - ci, p, (i + 1) as int, la - ci);
        assert(crate::nba_language::lasso_index(ci, len, j) == la);
        assert(good(run(j)));
    }
    run
}

proof fn lemma_pair_with_member(t: Seq<u32>, qs: Seq<usize>, x: (Seq<u32>, usize))
    requires
        pair_with(t, qs).contains(x),
    ensures
        x.0 == t,
        qs.contains(x.1),
{
    let k = choose|k: int| 0 <= k < pair_with(t, qs).len() && pair_with(t, qs)[k] == x;
    assert(qs[k] == x.1);
}

proof fn lemma_concat_member<T>(a: Seq<T>, b: Seq<T>, x: T)
    requires
        (a + b).contains(x),
    ensures
        a.contains(x) || b.contains(x),
{
    let k = choose|k: int| 0 <= k < (a + b).len() && (a + b)[k] == x;
    if k < a.len() {
        assert(a[k] == x);
    } else {
        assert(b[k - a.len()] == x);
    }
}

proof fn lemma_roots_member(net: PetriNet, nba: NBA, qs: Seq<usize>, x: (Seq<u32>, usize)) -> (q: usize)
    requires
        roots_from(net, nba, qs).contains(x),
    ensures
        qs.contains(q),
        x.0 == net.initial_tokens@,
        nba_next_spec(nba, q as int, label_of(net, nba, net.initial_tokens@)).contains(x.1),
    decreases qs.len(),
{
    let m0 = net.initial_tokens@;
    let prev = roots_from(net, nba, qs.drop_last());
    let last = pair_with(m0, nba_next_spec(nba, qs.last() as int, label_of(net, nba, m0)));
    lemma_concat_member(prev, last, x);
    if last.contains(x) {
        lemma_pair_with_member(m0, nba_next_spec(nba, qs.last() as int, label_of(net, nba, m0)), x);
        assert(qs[qs.len() - 1] == qs.last());
        qs.last()
    } else {
        let q = lemma_roots_member(net, nba, qs.drop_last(), x);
        let k = choose|k: int| 0 <= k < qs.drop_last().len() && qs.drop_last()[k] == q;
        assert(qs[k] == q);
        q
    }
}

proof fn lemma_prod_from_member(net: PetriNet, nba: NBA, ms: Seq<Seq<u32>>, q: int, x: (Seq<u32>, usize))
    requires
        prod_from(net, nba, ms, q).contains(x),
    ensures
        ms.contains(x.0),
        nba_next_spec(nba, q, label_of(net, nba, x.0)).contains(x.1),
    decreases ms.len(),
{
    let prev = prod_from(net, nba, ms.drop_last(), q);
    let last = pair_with(ms.last(), nba_next_spec(nba, q, label_of(net, nba, ms.last())));
    lemma_concat_member(prev, last, x);
    if last.contains(x) {
        lemma_pair_with_member(ms.last(), nba_next_spec(nba, q, label_of(net, nba, ms.last())), x);
        assert(ms[ms.len() - 1] == ms.last());
    } else {
        lemma_prod_from_member(net, nba, ms.drop_last(), q, x);
        let k = choose|k: int| 0 <= k < ms.drop_last().len() && ms.drop_last()[k] == x.0;
        assert(ms[k] == x.0);
    }
}

/// A state of the NBA holds the truth vector of the GNBA state it counts for.
proof fn lemma_state_vector(n: NBA, j: int)
    requires
        n.degeneralized(),
        n.gnba.wf(),
        acc_count(n.gnba) >= 1,
        n.gnba.states@.len() * acc_count(n.gnba) <= usize::MAX,
        0 <= j < n.states@.len(),
    ensures
        n.states@[j].formulas@ == n.gnba.vectors()[n.new_to_gnba@[j].0 as int],
        fviews(n.closure@) == n.gnba.closure_view(),
{
    let g = n.gnba;
    let k = acc_count(g);
    let dg = deg_graph(g);
    let keep = parts_useful(dg, deg_init(g), deg_acc(g));
    let kp = |x: int| keep[x];
    let kept = filter_ids(dg.len(), kp);
    let ns = g.states@.len();
    assert(g.states.len() == g.states@.len());
    assert(dg.len() == ns * k);
    lemma_filter_ids(dg.len(), kp);
    assert(kept[j] < dg.len());
    crate::nba_build::lemma_code_parts(kept[j] as int, k, ns as int);
    assert(n.new_to_gnba@[j] == (deg_entries(g)[kept[j] as int].0, deg_entries(g)[kept[j] as int].1, j as usize));
}

/// A counterexample of the product search is a firing sequence of the net whose trace the
/// NBA accepts, so that it satisfies the formula the NBA was built for.
pub proof fn lemma_counterexample(
    net: PetriNet,
    n: NBA,
    g: Formula,
    st: Seq<(Seq<u32>, usize)>,
    st2: Seq<(Seq<u32>, usize)>,
)
    requires
        nba_for(n, g),
        nba_size_ok(g),
        language_exact(g),
        atoms_evaluate(net, fviews(n.closure@)),
        prod_lasso(net, n, st, st2),
    ensures
        exists|ms: spec_fn(nat) -> Seq<u32>| firing_sequence(net, ms) && #[trigger] holds(
            g,
            marking_trace(net, ms),
        )(0),
{
    let step = |a: (Seq<u32>, usize), b: (Seq<u32>, usize)| prod_succ(net, n, a).contains(b);
    let good = |a: (Seq<u32>, usize)| n.acceptance_condition.states@.contains(a.1);
    assert forall|i: int| 0 <= i < st.len() - 1 implies #[trigger] step(st[i], st[i + 1]) by {
        assert(prod_succ(net, n, st[i]).contains(st[i + 1]));
    }
    assert forall|i: int| 0 <= i < st2.len() - 1 implies #[trigger] step(st2[i], st2[i + 1]) by {
        assert(prod_succ(net, n, st2[i]).contains(st2[i + 1]));
    }
    let c = choose|c: (Seq<u32>, usize)| st.contains(c) && #[trigger] prod_succ(net, n, st2.last()).contains(c);
    assert(step(st2.last(), c));
    let pr = lemma_unroll(st, st2, step, good);
    let q0 = lemma_roots_member(net, n, n.initial_states@, pr(0));
    crate::gnba::lemma_gnba_shape(n.gnba, g);
    assert(n.gnba.vectors().len() == n.gnba.states@.len());
    assert(acc_count(n.gnba) >= 1);
    assert(n.gnba.states@.len() * acc_count(n.gnba) <= usize::MAX);
    let ms = |i: nat| pr(i).0;
    let r = |i: nat| if i == 0 {
        q0 as nat
    } else {
        pr((i - 1) as nat).1 as nat
    };
    let gr = n.graph_view();
    let cl = fviews(n.closure@);
    let w = marking_trace(net, ms);
    // one product step
    assert forall|i: nat| #![trigger pr(i + 1)]
        next_markings(net.arcs(), pr(i).0).contains(pr(i + 1).0)
        && 0 <= pr(i).1 < n.states@.len()
        && gr[pr(i).1 as int].contains(pr(i + 1).1)
        && spec_label(n.gnba.vectors()[n.new_to_gnba@[pr(i).1 as int].0 as int], n.gnba.closure_view()) == label_of(net, n, pr(i + 1).0) by {
        assert(step(pr(i), pr(i + 1)));
        lemma_prod_from_member(net, n, next_markings(net.arcs(), pr(i).0), pr(i).1 as int, pr(i + 1));
    }
    assert(0 <= q0 < n.states@.len() && gr[q0 as int].contains(pr(0).1)
        && spec_label(n.gnba.vectors()[n.new_to_gnba@[q0 as int].0 as int], n.gnba.closure_view()) == label_of(net, n, pr(0).0));
    assert forall|i: nat| #[trigger] r(i) < n.states@.len() by {
        if i > 0 {
            let im = (i - 1) as nat;
            assert(pr(im + 1) == pr(im + 1));
            let src = if im == 0 { q0 as int } else { pr((im - 1) as nat).1 as int };
            if im == 0 {
                assert(gr[q0 as int].contains(pr(0).1));
                let row = gr[q0 as int];
                let kk = choose|kk: int| 0 <= kk < row.len() && #[trigger] row[kk] == pr(0).1;
                assert(row[kk] < gr.len());
            } else {
                let ip = (im - 1) as nat;
                assert(pr(ip + 1) == pr(ip + 1));
                assert(gr[pr(ip).1 as int].contains(pr(ip + 1).1));
                let row = gr[pr(ip).1 as int];
                let kk = choose|kk: int| 0 <= kk < row.len() && #[trigger] row[kk] == pr(ip + 1).1;
                assert(row[kk] < gr.len());
            }
        }
    }
    assert forall|i: nat| gr[r(i) as int].contains(#[trigger] r(i + 1) as usize) by {
        if i == 0 {
            assert(r(1) == pr(0).1);
        } else {
            let im = (i - 1) as nat;
            assert(pr(im + 1) == pr(im + 1));
            assert(r(i) == pr(im).1);
            assert(r(i + 1) == pr(im + 1).1);
        }
    }
    assert forall|i: nat| spec_label(n.states@[#[trigger] r(i) as int].formulas@, cl) == trace_label(cl, w, i) by {
        assert(r(i) < n.states@.len());
        lemma_state_vector(n, r(i) as int);
        lemma_marking_label(net, cl, ms, i);
        if i > 0 {
            let im = (i - 1) as nat;
            assert(pr(im + 1) == pr(im + 1));
            assert(r(i) == pr(im).1);
        }
    }
    assert forall|i: nat| #[trigger] visits_after(n.acceptance_condition.states@, r, i) by {
        assert(meets_after(good, pr, i));
        let j = choose|j: nat| i <= j && #[trigger] good(pr(j));
        assert(r(j + 1) == pr(j).1);
        assert(n.acceptance_condition.states@.contains(r(j + 1) as usize));
    }
    assert(is_nba_run(n, w, r));
    assert(is_nba_accepting(n, r));
    lemma_nba_language(n, g, w);
    assert forall|i: nat| next_markings(net.arcs(), ms(i)).contains(#[trigger] ms(i + 1)) by {
        assert(pr(i + 1) == pr(i + 1));
    }
    assert(firing_sequence(net, ms));
    assert(holds(g, w)(0));
}

/// `s` holds the initial marking and every marking that one transition leads to from one of
/// its markings, so that it holds every reachable marking.
pub open spec fn covers_reachable(net: PetriNet, s: Seq<Seq<u32>>) -> bool {
    &&& s.contains(net.initial_tokens@)
    &&& forall|m: Seq<u32>, m2: Seq<u32>|
        #[trigger] s.contains(m) && #[trigger] next_markings(net.arcs(), m).contains(m2) ==> s.contains(m2)
}

proof fn lemma_stays(net: PetriNet, s: Seq<Seq<u32>>, ms: spec_fn(nat) -> Seq<u32>, i: nat)
    requires
        covers_reachable(net, s),
        firing_sequence(net, ms),
    ensures
        s.contains(ms(i)),
    decreases i,
{
    if i > 0 {
        lemma_stays(net, s, ms, (i - 1) as nat);
        assert(next_markings(net.arcs(), ms((i - 1) as nat)).contains(ms(((i - 1) as nat + 1) as nat)));
    }
}

proof fn lemma_concat_has<T>(a: Seq<T>, b: Seq<T>, x: T)
    requires
        a.contains(x) || b.contains(x),
    ensures
        (a + b).contains(x),
{
    if a.contains(x) {
        let k = choose|k: int| 0 <= k < a.len() && a[k] == x;
        assert((a + b)[k] == x);
    } else {
        let k = choose|k: int| 0 <= k < b.len() && b[k] == x;
        assert((a + b)[a.len() + k] == x);
    }
}

proof fn lemma_pair_with_has(t: Seq<u32>, qs: Seq<usize>, q: usize)
    requires
        qs.contains(q),
    ensures
        pair_with(t, qs).contains((t, q)),
{
    let k = choose|k: int| 0 <= k < qs.len() && qs[k] == q;
    assert(pair_with(t, qs)[k] == (t, q));
}

proof fn lemma_roots_has(net: PetriNet, nba: NBA, qs: Seq<usize>, q: usize, q2: usize)
    requires
        qs.contains(q),
        nba_next_spec(nba, q as int, label_of(net, nba, net.initial_tokens@)).contains(q2),
    ensures
        roots_from(net, nba, qs).contains((net.initial_tokens@, q2)),
    decreases qs.len(),
{
    let m0 = net.initial_tokens@;
    let prev = roots_from(net, nba, qs.drop_last());
    let last = pair_with(m0, nba_next_spec(nba, qs.last() as int, label_of(net, nba, m0)));
    if qs.last() == q {
        lemma_pair_with_has(m0, nba_next_spec(nba, qs.last() as int, label_of(net, nba, m0)), q2);
    } else {
        let k = choose|k: int| 0 <= k < qs.len() && qs[k] == q;
        assert(qs.drop_last()[k] == q);
        lemma_roots_has(net, nba, qs.drop_last(), q, q2);
    }
    lemma_concat_has(prev, last, (m0, q2));
}

proof fn lemma_prod_from_has(net: PetriNet, nba: NBA, ms: Seq<Seq<u32>>, q: int, m: Seq<u32>, q2: usize)
    requires
        ms.contains(m),
        nba_next_spec(nba, q, label_of(net, nba, m)).contains(q2),
    ensures
        prod_from(net, nba, ms, q).contains((m, q2)),
    decreases ms.len(),
{
    let prev = prod_from(net, nba, ms.drop_last(), q);
    let last = pair_with(ms.last(), nba_next_spec(nba, q, label_of(net, nba, ms.last())));
    if ms.last() == m {
        lemma_pair_with_has(m, nba_next_spec(nba, q, label_of(net, nba, m)), q2);
    } else {
        let k = choose|k: int| 0 <= k < ms.len() && ms[k] == m;
        assert(ms.drop_last()[k] == m);
        lemma_prod_from_has(net, nba, ms.drop_last(), q, m, q2);
    }
    lemma_concat_has(prev, last, (m, q2));
}

/// The `t`-th position from `i` on where `good` holds.
pub open spec fn good_at(good: spec_fn(nat) -> bool, i: nat, t: nat) -> nat
    decreases t,
{
    if t == 0 {
        choose|p: nat| i <= p && #[trigger] good(p)
    } else {
        choose|p: nat| good_at(good, i, (t - 1) as nat) + 1 <= p && #[trigger] good(p)
    }
}

/// Where `good` holds again and again.
pub open spec fn again(good: spec_fn(nat) -> bool, j: nat) -> bool {
    exists|p: nat| j <= p && #[trigger] good(p)
}

proof fn lemma_good_at(good: spec_fn(nat) -> bool, i: nat, t: nat)
    requires
        forall|j: nat| #[trigger] again(good, j),
    ensures
        i + t <= good_at(good, i, t),
        good(good_at(good, i, t)),
        forall|u: nat| u < t ==> #[trigger] good_at(good, i, u) < good_at(good, i, t),
    decreases t,
{
    if t == 0 {
        assert(again(good, i));
    } else {
        lemma_good_at(good, i, (t - 1) as nat);
        assert(again(good, good_at(good, i, (t - 1) as nat) + 1));
    }
}

/// Finitely many values at the positions where `good` holds again and again repeat.
proof fn lemma_repeat_good(good: spec_fn(nat) -> bool, x: spec_fn(nat) -> nat, bound: nat, i: nat) -> (pq: (nat, nat))
    requires
        forall|j: nat| #[trigger] again(good, j),
        forall|j: nat| #[trigger] x(j) < bound,
    ensures
        i <= pq.0 < pq.1,
        x(pq.0) == x(pq.1),
        good(pq.0),
{
    let sq = Seq::new(bound + 1, |t: int| x(good_at(good, i, t as nat)));
    let (a, b) = crate::nba_language::lemma_pigeonhole(sq, bound);
    lemma_good_at(good, i, a as nat);
    lemma_good_at(good, i, b as nat);
    (good_at(good, i, a as nat), good_at(good, i, b as nat))
}

/// A firing sequence of a net with finitely many reachable markings whose trace the NBA
/// accepts gives a counterexample of the product search.
pub proof fn lemma_violation_lasso(
    net: PetriNet,
    n: NBA,
    g: Formula,
    s: Seq<Seq<u32>>,
    ms: spec_fn(nat) -> Seq<u32>,
)
    requires
        nba_for(n, g),
        nba_size_ok(g),
        language_exact(g),
        atoms_evaluate(net, fviews(n.closure@)),
        covers_reachable(net, s),
        firing_sequence(net, ms),
        holds(g, marking_trace(net, ms))(0),
    ensures
        exists|st: Seq<(Seq<u32>, usize)>, st2: Seq<(Seq<u32>, usize)>| #[trigger] prod_lasso(net, n, st, st2),
{
    let w = marking_trace(net, ms);
    lemma_nba_language(n, g, w);
    let r = choose|run: spec_fn(nat) -> nat| is_nba_run(n, w, run) && is_nba_accepting(n, run);
    crate::gnba::lemma_gnba_shape(n.gnba, g);
    assert(n.gnba.vectors().len() == n.gnba.states@.len());
    assert(n.gnba.states@.len() * acc_count(n.gnba) <= usize::MAX);
    let cl = fviews(n.closure@);
    let gr = n.graph_view();
    let nq = n.states@.len();
    assert(n.states.len() == n.states@.len());
    // each state of the run reads the label of its marking
    assert forall|i: nat| #[trigger] nba_next_spec(n, r(i) as int, label_of(net, n, ms(i))) == gr[r(i) as int] by {
        assert(r(i) < nq);
        lemma_state_vector(n, r(i) as int);
        lemma_marking_label(net, cl, ms, i);
    }
    let pr = |i: nat| (ms(i), r(i + 1) as usize);
    assert forall|i: nat| (#[trigger] r(i) as usize) as nat == r(i) by {
        assert(r(i) < nq);
    }
    assert(nba_next_spec(n, r(0) as int, label_of(net, n, ms(0))).contains(r(1) as usize));
    lemma_roots_has(net, n, n.initial_states@, r(0) as usize, r(1) as usize);
    assert(prod_roots(net, n).contains(pr(0)));
    assert forall|i: nat| prod_succ(net, n, pr(i)).contains(#[trigger] pr(i + 1)) by {
        let j = (i + 1) as nat;
        assert(gr[r(j) as int].contains(r(j + 1) as usize));
        assert(nba_next_spec(n, r(j) as int, label_of(net, n, ms(j))) == gr[r(j) as int]);
        assert(j + 1 == i + 2);
        assert(nba_next_spec(n, r(i + 1) as int, label_of(net, n, ms(i + 1))).contains(r(i + 2) as usize));
        assert(next_markings(net.arcs(), ms(i)).contains(ms(i + 1)));
        lemma_prod_from_has(net, n, next_markings(net.arcs(), ms(i)), r(i + 1) as int, ms(i + 1), r(i + 2) as usize);
    }
    // the product states, coded by the place of the marking in `s` and the NBA state
    let idx = |i: nat| (choose|k: int| 0 <= k < s.len() && s[k] == ms(i)) as nat;
    let code = |i: nat| idx(i) * nq + r(i + 1);
    assert forall|i: nat| #[trigger] code(i) < s.len() * nq && s[idx(i) as int] == ms(i) && code(i) / nq == idx(i) && code(i) % nq == r(i + 1) by {
        lemma_stays(net, s, ms, i);
        assert(r(i + 1) < nq);
        crate::nba_build::lemma_pair_code(idx(i) as int, r(i + 1) as int, nq as int, s.len() as int);
    }
    let good = |p: nat| n.acceptance_condition.states@.contains(r(p + 1) as usize);
    assert forall|j: nat| #[trigger] again(good, j) by {
        assert(visits_after(n.acceptance_condition.states@, r, j + 1));
        let p = choose|p: nat| j + 1 <= p && #[trigger] n.acceptance_condition.states@.contains(r(p) as usize);
        assert(good((p - 1) as nat));
    }
    let (p, q) = lemma_repeat_good(good, code, s.len() * nq, 0);
    assert(pr(p) == pr(q)) by {
        assert(code(p) == code(q));
        assert(idx(p) == idx(q));
        assert(r(p + 1) == r(q + 1));
    }
    let st = Seq::new((p + 1) as nat, |k: int| pr(k as nat));
    let st2 = Seq::new((q - p) as nat, |k: int| pr((p + k) as nat));
    assert forall|k: int| 0 <= k < st.len() - 1 implies prod_succ(net, n, st[k]).contains(#[trigger] st[k + 1]) by {
        assert(prod_succ(net, n, pr(k as nat)).contains(pr((k as nat + 1) as nat)));
    }
    assert forall|k: int| 0 <= k < st2.len() - 1 implies prod_succ(net, n, st2[k]).contains(#[trigger] st2[k + 1]) by {
        assert(prod_succ(net, n, pr((p + k) as nat)).contains(pr(((p + k) as nat + 1) as nat)));
    }
    assert(st.last() == pr(p));
    assert(st2.last() == pr((q - 1) as nat));
    assert(prod_succ(net, n, st2.last()).contains(pr(q))) by {
        assert(prod_succ(net, n, pr((q - 1) as nat)).contains(pr(((q - 1) as nat + 1) as nat)));
    }
    assert(st.contains(pr(q))) by {
        assert(st[p as int] == pr(p));
    }
    assert(prod_lasso(net, n, st, st2));
}

/// Where the product search of a net with finitely many reachable markings finds no
/// counterexample for the NBA of `!f`, `f` holds on every firing sequence.
pub proof fn lemma_holds_everywhere(net: PetriNet, n: NBA, f: Formula, s: Seq<Seq<u32>>)
    requires
        nba_for(n, Formula::Not(Box::new(f))),
        nba_size_ok(Formula::Not(Box::new(f))),
        language_exact(f),
        atoms_evaluate(net, fviews(n.closure@)),
        covers_reachable(net, s),
        forall|st: Seq<(Seq<u32>, usize)>, st2: Seq<(Seq<u32>, usize)>| !#[trigger] prod_lasso(net, n, st, st2),
    ensures
        forall|ms: spec_fn(nat) -> Seq<u32>|
            firing_sequence(net, ms) ==> #[trigger] holds(f, marking_trace(net, ms))(0),
{
    let neg = Formula::Not(Box::new(f));
    assert(language_exact(neg));
    assert forall|ms: spec_fn(nat) -> Seq<u32>| firing_sequence(net, ms) implies #[trigger] holds(f, marking_trace(net, ms))(0) by {
        if !holds(f, marking_trace(net, ms))(0) {
            assert(holds(neg, marking_trace(net, ms))(0));
            lemma_violation_lasso(net, n, neg, s, ms);
        }
    }
}

/// A place atom `p` holds at position `i` of a marking trace exactly when the first place
/// named `p` holds a token in the marking there.
pub proof fn lemma_place_atom(net: PetriNet, ms: spec_fn(nat) -> Seq<u32>, i: nat, name: Seq<char>, j: int)
    requires
        0 <= j < net.places@.len(),
        net.places@[j].id@ == name,
        forall|k: int| 0 <= k < j ==> net.places@[k].id@ != name,
    ensures
        marking_trace(net, ms)(i, Formula::Var(name)) <==> token_at(ms(i), j) > 0,
{
    assert forall|k: int| 0 <= k < j implies net.place_ids()[k] != name by {
        assert(net.place_ids()[k] == net.places@[k].id@);
    }
    assert(net.place_ids()[j] == name);
    lemma_find_name_first(net.place_ids(), name, j);
}

/// A comparison of the tokens on the first place named `p` with a number holds at position
/// `i` of a marking trace exactly when the count there stands in that relation to the number:
/// `<=`, `>=`, `>` and `<` in turn.
pub proof fn lemma_token_comparison(net: PetriNet, ms: spec_fn(nat) -> Seq<u32>, i: nat, name: Seq<char>, j: int, n: u32)
    requires
        0 <= j < net.places@.len(),
        net.places@[j].id@ == name,
        forall|k: int| 0 <= k < j ==> net.places@[k].id@ != name,
    ensures
        marking_trace(net, ms)(i, Formula::LessEqual(Box::new(Formula::TokenCount(name)), Box::new(Formula::Number(n))))
            <==> token_at(ms(i), j) <= n,
        marking_trace(net, ms)(i, Formula::GreaterEqual(Box::new(Formula::TokenCount(name)), Box::new(Formula::Number(n))))
            <==> token_at(ms(i), j) >= n,
        marking_trace(net, ms)(i, Formula::Greater(Box::new(Formula::TokenCount(name)), Box::new(Formula::Number(n))))
            <==> token_at(ms(i), j) > n,
        marking_trace(net, ms)(i, Formula::Less(Box::new(Formula::TokenCount(name)), Box::new(Formula::Number(n))))
            <==> token_at(ms(i), j) < n,
{
    assert forall|k: int| 0 <= k < j implies net.place_ids()[k] != name by {
        assert(net.place_ids()[k] == net.places@[k].id@);
    }
    assert(net.place_ids()[j] == name);
    lemma_find_name_first(net.place_ids(), name, j);
}

/// A fireability atom `t?` holds at position `i` of a marking trace exactly when the first
/// transition named `t` finds, on each of its input places, at least as many tokens as there
/// are arcs from that place; firing it then gives one of the successor markings.
pub proof fn lemma_fireable_atom(net: PetriNet, ms: spec_fn(nat) -> Seq<u32>, i: nat, name: Seq<char>, j: int)
    requires
        0 <= j < net.transitions@.len(),
        net.transitions@[j].id@ == name,
        forall|k: int| 0 <= k < j ==> net.transitions@[k].id@ != name,
    ensures
        marking_trace(net, ms)(i, Formula::Fireable(name)) <==> forall|a: int|
            0 <= a < net.transitions@[j].incoming@.len() ==> occurrences(
                net.transitions@[j].incoming@,
                #[trigger] net.transitions@[j].incoming@[a],
            ) <= token_at(ms(i), net.transitions@[j].incoming@[a] as int),
        marking_trace(net, ms)(i, Formula::Fireable(name)) ==> next_markings(net.arcs(), ms(i)).contains(
            fire(ms(i), net.arcs()[j]),
        ),
{
    assert forall|k: int| 0 <= k < j implies net.transition_ids()[k] != name by {
        assert(net.transition_ids()[k] == net.transitions@[k].id@);
    }
    assert(net.transition_ids()[j] == name);
    lemma_find_name_first(net.transition_ids(), name, j);
    assert(net.arcs()[j].0 == net.transitions@[j].incoming@);
    if marking_trace(net, ms)(i, Formula::Fireable(name)) {
        lemma_enabled_successor(net.arcs(), ms(i), j);
    }
}

/// A fireability atom for a name that no transition has never holds.
pub proof fn lemma_unknown_transition(net: PetriNet, ms: spec_fn(nat) -> Seq<u32>, i: nat, name: Seq<char>)
    requires
        forall|k: int| 0 <= k < net.transitions@.len() ==> net.transitions@[k].id@ != name,
    ensures
        !marking_trace(net, ms)(i, Formula::Fireable(name)),
{
    assert forall|k: int| 0 <= k < net.transition_ids().len() implies net.transition_ids()[k] != name by {
        assert(net.transition_ids()[k] == net.transitions@[k].id@);
    }
    lemma_find_name_absent(net.transition_ids(), name);
}

/// For a name that no place has, the place atom never holds and a token count of it is `0`
/// when compared with a number.
pub proof fn lemma_unknown_place(net: PetriNet, ms: spec_fn(nat) -> Seq<u32>, i: nat, name: Seq<char>, n: u32)
    requires
        forall|k: int| 0 <= k < net.places@.len() ==> net.places@[k].id@ != name,
    ensures
        !marking_trace(net, ms)(i, Formula::Var(name)),
        marking_trace(net, ms)(i, Formula::LessEqual(Box::new(Formula::TokenCount(name)), Box::new(Formula::Number(n)))),
        marking_trace(net, ms)(i, Formula::GreaterEqual(Box::new(Formula::TokenCount(name)), Box::new(Formula::Number(n))))
            <==> n == 0,
        marking_trace(net, ms)(i, Formula::Less(Box::new(Formula::TokenCount(name)), Box::new(Formula::Number(n))))
            <==> n > 0,
        !marking_trace(net, ms)(i, Formula::Greater(Box::new(Formula::TokenCount(name)), Box::new(Formula::Number(n)))),
{
    assert forall|k: int| 0 <= k < net.place_ids().len() implies net.place_ids()[k] != name by {
        assert(net.place_ids()[k] == net.places@[k].id@);
    }
    lemma_find_name_absent(net.place_ids(), name);
}

} // verus!
