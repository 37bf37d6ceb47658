use vstd::prelude::*;

use crate::closure::{compute_closure, fviews, spec_closure};
use crate::consistency::{bviews, completions, is_consistent};
use crate::gnba::{
    count_untils, filter_ids, lemma_filter_ids, spec_acceptance, spec_label, AcceptanceCondition, State,
    Transitions, GNBA,
};
use crate::nba::{pair_index_contents, pair_index_get, pair_index_insert, pair_index_new, slice_contains, NBA};
use crate::ltl_parser::{ltl_copy, spec_size, Formula, LTL};
use crate::pnf::{automaton_formula, spec_automaton_formula};
use crate::language::language_exact;
use crate::nba_language::{lemma_nba_language, nba_accepts_trace};
use crate::semantics::holds;

verus! {

/// The GNBA that `NBA::new` starts from is small enough that its states times its acceptance
/// sets can be numbered by `usize`.
pub open spec fn nba_size_ok(ltl: Formula) -> bool {
    let pnf = spec_automaton_formula(ltl);
    let cl = spec_closure(pnf);
    let vs = completions(cl, seq![]);
    &&& spec_size(pnf) <= usize::MAX
    &&& vs.len() * spec_acceptance(vs, cl).len() <= usize::MAX
}

/// The number of acceptance sets of a GNBA.
pub open spec fn acc_count(g: GNBA) -> int {
    g.acceptance_view().len() as int
}

/// The number of states of the automaton that counts through the acceptance sets.
pub open spec fn deg_size(g: GNBA) -> nat {
    (g.states@.len() * acc_count(g)) as nat
}

/// The counter after GNBA state `s` with counter `a`: it moves on to the next acceptance set
/// when `s` belongs to set `a`.
pub open spec fn next_counter(g: GNBA, s: int, a: int) -> int {
    if g.acceptance_view()[a].contains(s as usize) {
        (a + 1) % acc_count(g)
    } else {
        a
    }
}

/// The successors of state `x = s * k + a`: the successors `t` of `s`, each as `t * k` plus
/// the next counter.
pub open spec fn deg_graph(g: GNBA) -> Seq<Seq<usize>> {
    let k = acc_count(g);
    Seq::new(
        deg_size(g),
        |x: int| g.succ_view(x / k).map_values(|t: usize| (t * k + next_counter(g, x / k, x % k)) as usize),
    )
}

/// Every transition of state `x = s * k + a` carries the label of `s`.
pub open spec fn deg_labels(g: GNBA) -> Seq<Seq<Seq<bool>>> {
    let k = acc_count(g);
    Seq::new(
        deg_size(g),
        |x: int| Seq::new(g.succ_view(x / k).len(), |i: int| spec_label(g.vectors()[x / k], g.closure_view())),
    )
}

/// State `x = s * k + a` holds the truth vector of `s`.
pub open spec fn deg_formulas(g: GNBA) -> Seq<Seq<bool>> {
    let k = acc_count(g);
    Seq::new(deg_size(g), |x: int| g.vectors()[x / k])
}

/// The initial states: each initial `s` with counter 0.
pub open spec fn deg_init(g: GNBA) -> Seq<usize> {
    let k = acc_count(g);
    g.initial_states@.map_values(|s: usize| (s * k) as usize)
}

/// The accepting states: the states of the first acceptance set with counter 0.
pub open spec fn deg_acc(g: GNBA) -> Seq<usize> {
    filter_ids(deg_size(g), acc_pred(g))
}

/// State `x = s * k + a` accepts when `a` is 0 and `s` is in the first acceptance set.
pub open spec fn acc_pred(g: GNBA) -> spec_fn(int) -> bool {
    let k = acc_count(g);
    |x: int| x % k == 0 && g.acceptance_view()[0].contains((x / k) as usize)
}

/// The (GNBA state, counter, state) entry of each state.
pub open spec fn deg_entries(g: GNBA) -> Seq<(usize, usize, usize)> {
    let k = acc_count(g);
    Seq::new(deg_size(g), |x: int| ((x / k) as usize, (x % k) as usize, x as usize))
}

/// The map of pairs `(s, a)` with `a < k` and `s * k + a < x` to `s * k + a`.
pub open spec fn pairs_below(k: int, x: int) -> Map<(usize, usize), usize> {
    Map::new(
        |p: (usize, usize)| (p.1 as int) < k && (p.0 as int) * k + (p.1 as int) < x,
        |p: (usize, usize)| (p.0 * k + p.1) as usize,
    )
}

pub(crate) proof fn lemma_pair_code(s: int, a: int, k: int, n: int)
    requires
        0 <= s,
        0 <= a < k,
    ensures
        (s * k + a) / k == s,
        (s * k + a) % k == a,
        s < n ==> s * k + a < n * k,
        0 <= s * k + a,
{
    vstd::arithmetic::div_mod::lemma_fundamental_div_mod_converse(s * k + a, k, s, a);
    assert(s < n ==> s * k + a < n * k) by (nonlinear_arith)
        requires
            0 <= a < k,
    ;
    assert(0 <= s * k) by (nonlinear_arith)
        requires
            0 <= s,
            0 < k,
    ;
}

pub(crate) proof fn lemma_code_parts(x: int, k: int, n: int)
    requires
        0 <= x < n * k,
        0 < k,
    ensures
        0 <= x / k < n,
        0 <= x % k < k,
        x == (x / k) * k + x % k,
{
    vstd::arithmetic::div_mod::lemma_fundamental_div_mod(x, k);
    vstd::arithmetic::div_mod::lemma_div_pos_is_pos(x, k);
    vstd::arithmetic::div_mod::lemma_mod_bound(x, k);
    assert((x / k) * k == k * (x / k)) by (nonlinear_arith);
    if x / k >= n {
        assert((x / k) * k >= n * k) by (nonlinear_arith)
            requires
                x / k >= n,
                0 < k,
        ;
    }
}

fn clone_formulas(v: &Vec<LTL>) -> (r: Vec<LTL>)
    ensures
        fviews(r@) == fviews(v@),
{
    let mut r: Vec<LTL> = Vec::new();
    let mut i: usize = 0;
    while i < v.len()
        invariant
            i <= v@.len(),
            r@.len() == i,
            forall|j: int| 0 <= j < i ==> (#[trigger] r@[j])@ == v@[j]@,
        decreases v.len() - i,
    {
        r.push(ltl_copy(&v[i]));
        i = i + 1;
    }
    assert(fviews(r@) =~= fviews(v@));
    r
}

fn bools_equal(a: &[bool], b: &[bool]) -> (r: bool)
    ensures
        r == (a@ == b@),
{
    if a.len() != b.len() {
        return false;
    }
    let mut i: usize = 0;
    while i < a.len()
        invariant
            i <= a@.len(),
            a@.len() == b@.len(),
            forall|j: int| 0 <= j < i ==> a@[j] == b@[j],
        decreases a.len() - i,
    {
        if a[i] != b[i] {
            return false;
        }
        i = i + 1;
    }
    assert(a@ =~= b@);
    true
}

/// Whether `ltl` meets `nba_size_ok`: whether the states of its GNBA times its acceptance
/// sets can be numbered by `usize`, as `NBA::new` requires.
pub fn nba_fits(ltl: &LTL) -> (r: bool)
    ensures
        r == nba_size_ok(ltl@),
{
    let pnf = automaton_formula(ltl);
    if pnf.checked_size().is_none() {
        return false;
    }
    let closure = compute_closure(&pnf);
    let vectors = is_consistent(closure.as_slice());
    let u = count_untils(closure.as_slice());
    let k: usize = if u == 0 {
        1
    } else {
        u
    };
    proof {
        let cl = fviews(closure@);
        let vs = completions(cl, seq![]);
        assert(bviews(vectors@).len() == vectors@.len());
        crate::gnba::lemma_acceptance_upto_len(vs, cl, cl.len());
        assert(spec_acceptance(vs, cl).len() == k);
    }
    vectors.len().checked_mul(k).is_some()
}

impl NBA {
    /// The NBA is well formed, its GNBA is, and each state's entry names a GNBA state.
    pub open spec fn wf_full(&self) -> bool {
        &&& self.nba_wf()
        &&& self.gnba.wf()
        &&& forall|j: int|
            0 <= j < self.new_to_gnba@.len() ==> (#[trigger] self.new_to_gnba@[j]).0
                < self.gnba.states@.len()
    }

    /// `self` is the automaton that counts through the acceptance sets of `self.gnba`, with
    /// the states that lie on no accepting run taken out.
    pub open spec fn degeneralized(&self) -> bool {
        let g = self.gnba;
        self.pruned_from_parts(
            g.closure_view(),
            g,
            deg_formulas(g),
            deg_graph(g),
            deg_labels(g),
            deg_init(g),
            deg_acc(g),
            deg_entries(g),
        )
    }

    /// The NBA for `ltl` where `ltl` meets `nba_size_ok`; `None` where it does not.
    pub fn try_new(ltl: &LTL) -> (r: Option<NBA>)
        ensures
            r is Some <==> nba_size_ok(ltl@),
            r matches Some(n) ==> n.gnba.built_from(ltl@) && n.degeneralized() && n.wf_full(),
            r matches Some(n) ==> (language_exact(ltl@) ==> forall|w: spec_fn(nat, Formula) -> bool|
                #[trigger] nba_accepts_trace(n, w) <==> holds(ltl@, w)(0)),
    {
        if nba_fits(ltl) {
            Some(NBA::new(ltl))
        } else {
            None
        }
    }

    /// An NBA for `ltl`: each GNBA state is copied once per acceptance set, a counter that
    /// moves on through the sets, the first set's states with counter 0 accept, and the states
    /// that lie on no accepting run are taken out. Where the automaton formula is exact for
    /// `ltl` (see `language_exact`), the NBA accepts exactly the traces that satisfy `ltl` at
    /// their first position.
    pub fn new(ltl: &LTL) -> (r: NBA)
        requires
            nba_size_ok(ltl@),
        ensures
            r.gnba.built_from(ltl@),
            r.degeneralized(),
            r.wf_full(),
            language_exact(ltl@) ==> forall|w: spec_fn(nat, Formula) -> bool|
                #[trigger] nba_accepts_trace(r, w) <==> holds(ltl@, w)(0),
    {
        let gnba = GNBA::new(ltl);
        let ns = gnba.states.len();
        let k = gnba.acceptance_conditions.len();
        let ghost g = gnba;
        proof {
            assert(gnba.acceptance_view().len() == k);
            assert(k >= 1);
            assert(ns * k <= usize::MAX);
        }
        let nn = ns * k;
        let mut states: Vec<State> = Vec::new();
        let mut new_to_gnba: Vec<(usize, usize, usize)> = Vec::new();
        let mut gnba_to_new = pair_index_new();
        let closure = clone_formulas(&gnba.closure);
        assert(pair_index_contents(gnba_to_new) =~= pairs_below(k as int, 0));
        let mut x: usize = 0;
        while x < nn
            invariant
                g == gnba,
                g.built_from(ltl@),
                ns == g.states@.len(),
                k == acc_count(g),
                k >= 1,
                nn == ns * k,
                x <= nn,
                states@.len() == x,
                new_to_gnba@.len() == x,
                forall|j: int|
                    0 <= j < x ==> (#[trigger] states@[j]).id == j && states@[j].formulas@
                        == deg_formulas(g)[j],
                forall|j: int| 0 <= j < x ==> #[trigger] new_to_gnba@[j] == deg_entries(g)[j],
                pair_index_contents(gnba_to_new) == pairs_below(k as int, x as int),
            decreases nn - x,
        {
            proof {
                lemma_code_parts(x as int, k as int, ns as int);
            }
            let s = x / k;
            let a = x % k;
            states.push(State { id: x, formulas: gnba.states[s].formulas.clone() });
            new_to_gnba.push((s, a, x));
            pair_index_insert(&mut gnba_to_new, (s, a), x);
            proof {
                assert(gnba.states@[s as int].formulas@ == g.vectors()[s as int]);
                assert forall|p: (usize, usize)| #[trigger] pairs_below(k as int, x + 1).dom().contains(p)
                    <==> pairs_below(k as int, x as int).insert((s, a), x).dom().contains(p) by {
                    if (p.1 as int) < k {
                        lemma_pair_code(p.0 as int, p.1 as int, k as int, 0);
                    }
                }
                assert forall|p: (usize, usize)| #[trigger] pairs_below(k as int, x + 1).dom().contains(p)
                    implies pairs_below(k as int, x + 1)[p] == pairs_below(k as int, x as int).insert((s, a), x)[p] by {
                    lemma_pair_code(p.0 as int, p.1 as int, k as int, 0);
                }
                assert(pairs_below(k as int, x + 1) =~= pairs_below(k as int, x as int).insert((s, a), x));
            }
            x = x + 1;
        }
        assert(deg_size(g) == nn);
        assert(new_to_gnba@ =~= deg_entries(g));
        // initial states: each initial GNBA state with counter 0
        let mut initial_states: Vec<usize> = Vec::new();
        let mut i: usize = 0;
        while i < gnba.initial_states.len()
            invariant
                g == gnba,
                g.wf(),
                ns == g.states@.len(),
                k == acc_count(g),
                k >= 1,
                nn == ns * k,
                i <= g.initial_states@.len(),
                initial_states@ == deg_init(g).take(i as int),
                forall|j: int| 0 <= j < i ==> #[trigger] initial_states@[j] < nn,
            decreases gnba.initial_states.len() - i,
        {
            let o = gnba.initial_states[i];
            proof {
                lemma_pair_code(o as int, 0, k as int, ns as int);
            }
            initial_states.push(o * k);
            assert(initial_states@ =~= deg_init(g).take(i + 1));
            i = i + 1;
        }
        assert(deg_init(g).take(deg_init(g).len() as int) =~= deg_init(g));
        // accepting states: the first set's states with counter 0
        let mut accepting: Vec<usize> = Vec::new();
        let ghost accp = acc_pred(g);
        let first = &gnba.acceptance_conditions[0];
        assert(first.states@ == g.acceptance_view()[0]);
        let mut y: usize = 0;
        while y < nn
            invariant
                g == gnba,
                k == acc_count(g),
                k >= 1,
                ns == g.states@.len(),
                nn == ns * k,
                nn == deg_size(g),
                first.states@ == g.acceptance_view()[0],
                y <= nn,
                new_to_gnba@.len() == nn,
                forall|j: int| 0 <= j < nn ==> #[trigger] new_to_gnba@[j] == deg_entries(g)[j],
                accp == acc_pred(g),
                accepting@ == filter_ids(y as nat, accp),
                forall|j: int| 0 <= j < accepting@.len() ==> #[trigger] accepting@[j] < nn,
            decreases nn - y,
        {
            let entry = new_to_gnba[y];
            assert(entry == deg_entries(g)[y as int]);
            proof {
                lemma_code_parts(y as int, k as int, ns as int);
                assert(accp(y as int) == (g.acceptance_view()[0].contains(entry.0) && entry.1 == 0));
            }
            if slice_contains(first.states.as_slice(), entry.0) && entry.1 == 0 {
                accepting.push(entry.2);
            }
            proof {
                assert(filter_ids((y + 1) as nat, accp) == if accp(y as int) {
                    filter_ids(y as nat, accp).push(y as usize)
                } else {
                    filter_ids(y as nat, accp)
                });
            }
            y = y + 1;
        }
        let mut nba = NBA {
            closure,
            states,
            transitions: Vec::new(),
            initial_states,
            acceptance_condition: AcceptanceCondition { states: accepting },
            new_to_gnba,
            gnba_to_new,
            gnba,
        };
        let transitions = nba.generate_transitions();
        nba.transitions = transitions;
        let ghost before = nba;
        proof {
            assert(before.formulas_view() =~= deg_formulas(g));
            assert(before.new_to_gnba@ =~= deg_entries(g));
            assert(before.graph_view() =~= deg_graph(g));
            assert(before.labels_view() =~= deg_labels(g));
            assert forall|j: int, t: int|
                0 <= j < before.graph_view().len() && 0 <= t < before.graph_view()[j].len() implies #[trigger] before.graph_view()[j][t]
                    < before.graph_view().len() by {
                lemma_code_parts(j, k as int, ns as int);
                assert(g.succ_view(j / (k as int))[t] < ns);
                lemma_pair_code(g.succ_view(j / (k as int))[t] as int, next_counter(g, j / (k as int), j % (k as int)), k as int, ns as int);
            }
            assert(crate::graph::valid_graph(before.graph_view()));
            assert(before.transitions@.len() == before.states@.len());
            assert forall|i: int| 0 <= i < before.transitions@.len() implies (#[trigger] before.transitions@[i]).label@.len()
                == before.transitions@[i].transitions@.len() by {
                assert(before.transitions@[i].label@.map_values(|l: Vec<bool>| l@).len() == before.transitions@[i].label@.len());
            }
            assert(forall|k: int| 0 <= k < before.initial_states@.len() ==> #[trigger] before.initial_states@[k]
                < before.states@.len());
            assert(forall|k: int| 0 <= k < before.acceptance_condition.states@.len() ==> #[trigger] before.acceptance_condition.states@[k]
                < before.states@.len());
            assert(before.new_to_gnba@.len() == before.states@.len());
            assert(forall|i: int| 0 <= i < before.states@.len() ==> (#[trigger] before.states@[i]).id == i);
        }
        nba.remove_dead_states();
        proof {
            assert(nba.pruned_from(before));
            let keep = crate::nba::parts_useful(deg_graph(g), deg_init(g), deg_acc(g));
            let kept = filter_ids(deg_graph(g).len(), |z: int| keep[z]);
            lemma_filter_ids(deg_graph(g).len(), |z: int| keep[z]);
            assert forall|j: int| 0 <= j < nba.new_to_gnba@.len() implies (#[trigger] nba.new_to_gnba@[j]).0
                < nba.gnba.states@.len() by {
                assert(kept[j] < nn);
                lemma_code_parts(kept[j] as int, k as int, ns as int);
            }
            if language_exact(ltl@) {
                assert forall|w: spec_fn(nat, Formula) -> bool| #[trigger] nba_accepts_trace(nba, w) <==> holds(ltl@, w)(0) by {
                    lemma_nba_language(nba, ltl@, w);
                }
            }
        }
        nba
    }

    /// The transitions: from state `s * k + a` to `t * k` plus the next counter, for each
    /// successor `t` of `s`, labelled with the label of `s`.
    fn generate_transitions(&self) -> (r: Vec<Transitions>)
        requires
            self.gnba.wf(),
            acc_count(self.gnba) >= 1,
            self.gnba.states@.len() * acc_count(self.gnba) <= usize::MAX,
            self.new_to_gnba@ == deg_entries(self.gnba),
            pair_index_contents(self.gnba_to_new) == pairs_below(
                acc_count(self.gnba),
                deg_size(self.gnba) as int,
            ),
        ensures
            r@.len() == deg_size(self.gnba),
            forall|x: int| 0 <= x < r@.len() ==> (#[trigger] r@[x]).transitions@ == deg_graph(self.gnba)[x],
            forall|x: int|
                0 <= x < r@.len() ==> (#[trigger] r@[x]).label@.map_values(|l: Vec<bool>| l@)
                    == deg_labels(self.gnba)[x],
    {
        let ghost g = self.gnba;
        let ns = self.gnba.states.len();
        let k = self.gnba.acceptance_conditions.len();
        let nn = self.new_to_gnba.len();
        assert(nn == ns * k);
        let mut transitions: Vec<Transitions> = Vec::new();
        let mut x: usize = 0;
        while x < nn
            invariant
                g == self.gnba,
                g.wf(),
                ns == g.states@.len(),
                k == acc_count(g),
                k >= 1,
                nn == ns * k,
                nn == deg_size(g),
                self.new_to_gnba@ == deg_entries(g),
                pair_index_contents(self.gnba_to_new) == pairs_below(k as int, nn as int),
                x <= nn,
                transitions@.len() == x,
                forall|j: int| 0 <= j < x ==> (#[trigger] transitions@[j]).transitions@ == deg_graph(g)[j],
                forall|j: int|
                    0 <= j < x ==> (#[trigger] transitions@[j]).label@.map_values(|l: Vec<bool>| l@)
                        == deg_labels(g)[j],
            decreases nn - x,
        {
            proof {
                lemma_code_parts(x as int, k as int, ns as int);
            }
            let entry = self.new_to_gnba[x];
            let s = entry.0;
            let a = entry.1;
            assert(s == x / k && a == x % k);
            let label = self.gnba.label(s);
            let cond = &self.gnba.acceptance_conditions[a];
            assert(cond.states@ == g.acceptance_view()[a as int]);
            let next = if slice_contains(cond.states.as_slice(), s) {
                (a + 1) % k
            } else {
                a
            };
            assert(next == next_counter(g, s as int, a as int));
            let succs = self.gnba.successors(s);
            let ghost want = deg_graph(g)[x as int];
            let mut targets: Vec<usize> = Vec::new();
            let mut labels: Vec<Vec<bool>> = Vec::new();
            let mut i: usize = 0;
            while i < succs.len()
                invariant
                    g == self.gnba,
                    g.wf(),
                    ns == g.states@.len(),
                    k == acc_count(g),
                    k >= 1,
                    nn == ns * k,
                    0 <= s < ns,
                    0 <= next < k,
                    succs@ == g.succ_view(s as int),
                    pair_index_contents(self.gnba_to_new) == pairs_below(k as int, nn as int),
                    label@ == spec_label(g.vectors()[s as int], g.closure_view()),
                    i <= succs@.len(),
                    targets@ == succs@.take(i as int).map_values(|t: usize| (t * k + next) as usize),
                    labels@.len() == i,
                    forall|j: int| 0 <= j < i ==> (#[trigger] labels@[j])@ == label@,
                decreases succs.len() - i,
            {
                let t = succs[i];
                proof {
                    assert(g.succ_view(s as int)[i as int] < ns);
                    lemma_pair_code(t as int, next as int, k as int, ns as int);
                    assert(pairs_below(k as int, nn as int).dom().contains((t, next)));
                }
                match pair_index_get(&self.gnba_to_new, (t, next)) {
                    Some(to_new) => {
                        targets.push(to_new);
                        labels.push(label.clone());
                    },
                    None => {},
                }
                assert(targets@ =~= succs@.take(i + 1).map_values(|t: usize| (t * k + next) as usize));
                i = i + 1;
            }
            assert(succs@.take(succs@.len() as int) =~= succs@);
            assert(targets@ =~= want);
            let ghost lv = labels@.map_values(|l: Vec<bool>| l@);
            assert(lv =~= deg_labels(g)[x as int]);
            transitions.push(Transitions { transitions: targets, label: labels });
            x = x + 1;
        }
        transitions
    }

    /// The successors of a state, when the label given is the label of its GNBA state, and
    /// none otherwise (also for a number that names no state).
    pub fn next(&self, state_id: usize, label: &[bool]) -> (r: Vec<usize>)
        requires
            self.wf_full(),
        ensures
            r@ == if state_id < self.states@.len() && spec_label(
                self.gnba.vectors()[self.new_to_gnba@[state_id as int].0 as int],
                self.gnba.closure_view(),
            ) == label@ {
                self.graph_view()[state_id as int]
            } else {
                Seq::empty()
            },
    {
        if state_id >= self.new_to_gnba.len() {
            return Vec::new();
        }
        let orig_state_id = self.new_to_gnba[state_id].0;
        let own = self.gnba_state_label(orig_state_id);
        if !bools_equal(own.as_slice(), label) {
            return Vec::new();
        }
        self.transitions[state_id].transitions.clone()
    }

    fn gnba_state_label(&self, gnba_state_id: usize) -> (r: Vec<bool>)
        requires
            self.gnba.wf(),
            gnba_state_id < self.gnba.states@.len(),
        ensures
            r@ == spec_label(self.gnba.vectors()[gnba_state_id as int], self.gnba.closure_view()),
    {
        self.gnba.label(gnba_state_id)
    }
}

} // verus!
