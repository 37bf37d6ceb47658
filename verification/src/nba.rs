use vstd::prelude::*;

use rustc_hash::FxHashMap;

use crate::gnba::{filter_ids, lemma_filter_ids, State, Transitions, AcceptanceCondition, GNBA};
use crate::graph::{
    component_of, components, count_true, covered, edges_turned, has_edge, lemma_mutual_class,
    lemma_reaches_turned, mutual, reached_from_marked, reaches, reverse_graph, valid_graph,
};
use crate::closure::fviews;
use crate::ltl_parser::{Formula, LTL};

verus! {

#[verifier::external_type_specification]
#[verifier::external_body]
pub struct ExFxBuildHasher(rustc_hash::FxBuildHasher);

/// A map from (GNBA state, acceptance set) pairs to NBA states.
pub type PairIndex = FxHashMap<(usize, usize), usize>;

/// What a map from (GNBA state, acceptance set) pairs to NBA states holds.
pub uninterp spec fn pair_index_contents(m: PairIndex) -> Map<
    (usize, usize),
    usize,
>;

/// `FxHashMap::default`: a map that holds nothing.
#[verifier::external_body]
pub(crate) fn pair_index_new() -> (r: PairIndex)
    ensures
        pair_index_contents(r) =~= Map::empty(),
{
    FxHashMap::default()
}

/// `HashMap::insert` on an `FxHashMap`: afterwards the key maps to the value and every other
/// key to what it mapped to before.
#[verifier::external_body]
pub(crate) fn pair_index_insert(m: &mut PairIndex, key: (usize, usize), value: usize)
    ensures
        pair_index_contents(*final(m)) == pair_index_contents(*old(m)).insert(key, value),
{
    m.insert(key, value);
}

/// `HashMap::get` on an `FxHashMap`: the value that the key maps to, if any.
#[verifier::external_body]
pub(crate) fn pair_index_get(m: &PairIndex, key: (usize, usize)) -> (r: Option<usize>)
    ensures
        r == (if pair_index_contents(*m).dom().contains(key) {
            Some(pair_index_contents(*m)[key])
        } else {
            None
        }),
{
    m.get(&key).copied()
}

/// A Büchi automaton with one acceptance set, made from a GNBA by counting through its
/// acceptance sets, with the states that lie on no accepting run taken out.
pub struct NBA {
    pub closure: Vec<LTL>,
    pub states: Vec<State>,
    pub transitions: Vec<Transitions>,
    pub initial_states: Vec<usize>,
    pub acceptance_condition: AcceptanceCondition,
    pub new_to_gnba: Vec<(usize, usize, usize)>,
    pub gnba_to_new: FxHashMap<(usize, usize), usize>,
    pub gnba: GNBA,
}

/// The new number of kept node `x`: how many kept nodes come before it.
pub open spec fn rank(keep: Seq<bool>, x: int) -> nat {
    count_true(keep.take(x))
}

/// The kept nodes of `s`, in order, by their new numbers.
pub open spec fn prune_list(s: Seq<usize>, keep: Seq<bool>) -> Seq<usize>
    decreases s.len(),
{
    if s.len() == 0 {
        s
    } else {
        let p = prune_list(s.drop_last(), keep);
        if keep[s.last() as int] {
            p.push(rank(keep, s.last() as int) as usize)
        } else {
            p
        }
    }
}

/// The labels of the transitions to kept nodes, in order.
pub open spec fn prune_labels(targets: Seq<usize>, labels: Seq<Seq<bool>>, keep: Seq<bool>) -> Seq<
    Seq<bool>,
>
    decreases targets.len(),
{
    if targets.len() == 0 || labels.len() == 0 {
        seq![]
    } else {
        let p = prune_labels(targets.drop_last(), labels.drop_last(), keep);
        if keep[targets.last() as int] {
            p.push(labels.last())
        } else {
            p
        }
    }
}

/// The map from each (GNBA state, acceptance set) pair of `entries` to the state it names;
/// a later entry wins.
pub open spec fn index_map(entries: Seq<(usize, usize, usize)>) -> Map<(usize, usize), usize>
    decreases entries.len(),
{
    if entries.len() == 0 {
        Map::empty()
    } else {
        let e = entries.last();
        index_map(entries.drop_last()).insert((e.0, e.1), e.2)
    }
}

/// `x` lies in a strongly connected component that has a cycle and an accepting state.
pub open spec fn on_accepting_cycle_scc(g: Seq<Seq<usize>>, acc: Seq<usize>, x: int) -> bool {
    &&& (exists|y: int| y != x && #[trigger] mutual(g, x, y)) || has_edge(g, x, x)
    &&& exists|a: int| 0 <= a && acc.contains(a as usize) && #[trigger] mutual(g, x, a)
}

/// For each node, whether it lies on an accepting run.
pub open spec fn parts_useful(g: Seq<Seq<usize>>, init: Seq<usize>, acc: Seq<usize>) -> Seq<bool> {
    Seq::new(g.len(), |x: int| useful_state(g, init, acc, x))
}

/// `x` is reached from an initial state and reaches a state of an accepting cyclic
/// component: it lies on an accepting run.
pub open spec fn useful_state(g: Seq<Seq<usize>>, init: Seq<usize>, acc: Seq<usize>, x: int) -> bool {
    &&& exists|i: int| 0 <= i < init.len() && #[trigger] reaches(g, init[i] as int, x)
    &&& exists|y: int| #[trigger] reaches(g, x, y) && on_accepting_cycle_scc(g, acc, y)
}

impl NBA {
    /// The successor lists.
    pub open spec fn graph_view(&self) -> Seq<Seq<usize>> {
        self.transitions@.map_values(|t: Transitions| t.transitions@)
    }

    /// Which states lie on an accepting run.
    pub open spec fn useful(&self) -> Seq<bool> {
        parts_useful(self.graph_view(), self.initial_states@, self.acceptance_condition.states@)
    }

    /// The truth vectors of the states.
    pub open spec fn formulas_view(&self) -> Seq<Seq<bool>> {
        self.states@.map_values(|s: State| s.formulas@)
    }

    /// The labels of the transitions, state by state.
    pub open spec fn labels_view(&self) -> Seq<Seq<Seq<bool>>> {
        self.transitions@.map_values(|t: Transitions| t.label@.map_values(|l: Vec<bool>| l@))
    }

    /// States are numbered by position, each has a transition entry with one label per
    /// target, every target, initial and accepting state is a state, and each state has an
    /// entry in `new_to_gnba`.
    pub open spec fn nba_wf(&self) -> bool {
        &&& forall|i: int| 0 <= i < self.states@.len() ==> (#[trigger] self.states@[i]).id == i
        &&& self.transitions@.len() == self.states@.len()
        &&& valid_graph(self.graph_view())
        &&& forall|i: int|
            0 <= i < self.transitions@.len() ==> (#[trigger] self.transitions@[i]).label@.len()
                == self.transitions@[i].transitions@.len()
        &&& forall|k: int|
            0 <= k < self.initial_states@.len() ==> #[trigger] self.initial_states@[k]
                < self.states@.len()
        &&& forall|k: int|
            0 <= k < self.acceptance_condition.states@.len() ==> #[trigger] self.acceptance_condition.states@[k]
                < self.states@.len()
        &&& self.new_to_gnba@.len() == self.states@.len()
    }

    /// `self` is the automaton given by its parts with the states that lie on no accepting
    /// run taken out and the others numbered anew in their old order.
    pub open spec fn pruned_from_parts(
        &self,
        closure: Seq<Formula>,
        gnba: GNBA,
        formulas: Seq<Seq<bool>>,
        graph: Seq<Seq<usize>>,
        labels: Seq<Seq<Seq<bool>>>,
        init: Seq<usize>,
        acc: Seq<usize>,
        entries: Seq<(usize, usize, usize)>,
    ) -> bool {
        let keep = parts_useful(graph, init, acc);
        let kept = filter_ids(graph.len(), |x: int| keep[x]);
        &&& fviews(self.closure@) == closure
        &&& self.gnba == gnba
        &&& self.states@.len() == kept.len()
        &&& self.transitions@.len() == kept.len()
        &&& self.new_to_gnba@.len() == kept.len()
        &&& forall|j: int|
            0 <= j < kept.len() ==> (#[trigger] self.states@[j]).id == j
                && self.states@[j].formulas@ == formulas[kept[j] as int]
        &&& forall|j: int|
            0 <= j < kept.len() ==> (#[trigger] self.transitions@[j]).transitions@ == prune_list(
                graph[kept[j] as int],
                keep,
            )
        &&& forall|j: int|
            0 <= j < kept.len() ==> (#[trigger] self.transitions@[j]).label@.map_values(
                |l: Vec<bool>| l@,
            ) == prune_labels(graph[kept[j] as int], labels[kept[j] as int], keep)
        &&& forall|j: int|
            0 <= j < kept.len() ==> #[trigger] self.new_to_gnba@[j] == (
                entries[kept[j] as int].0,
                entries[kept[j] as int].1,
                j as usize,
            )
        &&& self.initial_states@ == prune_list(init, keep)
        &&& self.acceptance_condition.states@ == prune_list(acc, keep)
        &&& pair_index_contents(self.gnba_to_new) == index_map(self.new_to_gnba@)
    }

    /// `self` is `old` with the states that lie on no accepting run taken out and the others
    /// numbered anew in their old order.
    pub open spec fn pruned_from(&self, old: NBA) -> bool {
        self.pruned_from_parts(
            fviews(old.closure@),
            old.gnba,
            old.formulas_view(),
            old.graph_view(),
            old.labels_view(),
            old.initial_states@,
            old.acceptance_condition.states@,
            old.new_to_gnba@,
        )
    }
}

/// A component has a cycle (more than one state, or a loop on its one state) and an accepting
/// state.
pub open spec fn comp_good(g: Seq<Seq<usize>>, acc: Seq<usize>, comp: Seq<usize>) -> bool {
    &&& comp.len() > 1 || has_edge(g, comp[0] as int, comp[0] as int)
    &&& exists|j: int| 0 <= j < comp.len() && acc.contains(#[trigger] comp[j])
}

proof fn lemma_component_good(g: Seq<Seq<usize>>, acc: Seq<usize>, comp: Seq<usize>, f: int, x: int)
    requires
        valid_graph(g),
        g.len() <= usize::MAX,
        comp == component_of(g, f),
        0 <= x < g.len(),
        comp.contains(x as usize),
    ensures
        comp_good(g, acc, comp) == on_accepting_cycle_scc(g, acc, x),
        comp == component_of(g, x),
{
    let pf = |w: int| mutual(g, f, w);
    let px = |w: int| mutual(g, x, w);
    lemma_filter_ids(g.len(), pf);
    assert(mutual(g, f, x));
    assert(pf =~= px) by {
        assert forall|w: int| #[trigger] pf(w) == px(w) by {
            lemma_mutual_class(g, f, x, w);
        }
    }
    assert(comp == component_of(g, x));
    lemma_filter_ids(g.len(), px);
    // the members of the component are exactly the nodes that reach each other with x
    assert forall|w: int| 0 <= w < g.len() implies (comp.contains(w as usize) <==> mutual(g, x, w)) by {
        assert(px(w) == mutual(g, x, w));
    }
    assert forall|w: int| #[trigger] mutual(g, x, w) implies 0 <= w < g.len() by {
        let p = choose|p: Seq<int>| #[trigger] crate::graph::is_path(g, p) && p[0] == x && p.last() == w;
        assert(0 <= p[p.len() - 1] < g.len());
    }
    // cyclic part
    if comp.len() > 1 {
        assert(comp[0] != comp[1]);
        let y = if comp[0] as int != x { comp[0] as int } else { comp[1] as int };
        assert(comp.contains(y as usize));
        assert(px(comp[0] as int));
        assert(px(comp[1] as int));
        assert(mutual(g, x, y));
    } else {
        assert(comp.len() == 1);
        let k = choose|k: int| 0 <= k < comp.len() && comp[k] == x as usize;
        assert(comp[0] as int == x);
        if exists|y: int| y != x && #[trigger] mutual(g, x, y) {
            let y = choose|y: int| y != x && #[trigger] mutual(g, x, y);
            assert(comp.contains(y as usize));
            let k2 = choose|k2: int| 0 <= k2 < comp.len() && comp[k2] == y as usize;
            assert(false);
        }
    }
    // accepting part
    if exists|j: int| 0 <= j < comp.len() && acc.contains(#[trigger] comp[j]) {
        let j = choose|j: int| 0 <= j < comp.len() && acc.contains(#[trigger] comp[j]);
        assert(px(comp[j] as int));
        assert(mutual(g, x, comp[j] as int));
    }
    if exists|a: int| 0 <= a && acc.contains(a as usize) && #[trigger] mutual(g, x, a) {
        let a = choose|a: int| 0 <= a && acc.contains(a as usize) && #[trigger] mutual(g, x, a);
        assert(comp.contains(a as usize));
        let j = choose|j: int| 0 <= j < comp.len() && comp[j] == a as usize;
        assert(acc.contains(comp[j]));
    }
}

pub(crate) proof fn lemma_filter_prefix(n: nat, i: nat, p: spec_fn(int) -> bool)
    requires
        i <= n,
    ensures
        filter_ids(i, p).len() <= filter_ids(n, p).len(),
        forall|j: int| 0 <= j < filter_ids(i, p).len() ==> #[trigger] filter_ids(n, p)[j] == filter_ids(i, p)[j],
    decreases n - i,
{
    if i < n {
        lemma_filter_prefix((n - 1) as nat, i, p);
    }
}

pub(crate) proof fn lemma_filter_count(keep: Seq<bool>, p: spec_fn(int) -> bool, i: nat)
    requires
        i <= keep.len(),
        forall|x: int| 0 <= x < keep.len() ==> #[trigger] p(x) == keep[x],
    ensures
        filter_ids(i, p).len() == count_true(keep.take(i as int)),
    decreases i,
{
    if i > 0 {
        lemma_filter_count(keep, p, (i - 1) as nat);
        assert(keep.take(i as int).drop_last() =~= keep.take(i - 1));
    }
}

pub(crate) fn slice_contains(s: &[usize], x: usize) -> (r: bool)
    ensures
        r == s@.contains(x),
{
    let mut i: usize = 0;
    while i < s.len()
        invariant
            i <= s@.len(),
            forall|j: int| 0 <= j < i ==> s@[j] != x,
        decreases s.len() - i,
    {
        if s[i] == x {
            return true;
        }
        i = i + 1;
    }
    false
}

proof fn lemma_count_true_take_mono(s: Seq<bool>, i: int, j: int)
    requires
        0 <= i <= j <= s.len(),
    ensures
        count_true(s.take(i)) <= count_true(s.take(j)),
        i < j && s[i] ==> count_true(s.take(i)) < count_true(s.take(j)),
    decreases j - i,
{
    if i < j {
        lemma_count_true_take_mono(s, i, j - 1);
        assert(s.take(j).drop_last() =~= s.take(j - 1));
        if s[i] && i == j - 1 {
            assert(s.take(j).last() == s[i]);
        }
    }
}

proof fn lemma_prune_list_bounds(s: Seq<usize>, keep: Seq<bool>)
    requires
        forall|k: int| 0 <= k < s.len() ==> #[trigger] s[k] < keep.len(),
    ensures
        forall|k: int|
            0 <= k < prune_list(s, keep).len() ==> #[trigger] prune_list(s, keep)[k] < count_true(
                keep,
            ),
        prune_list(s, keep).len() <= s.len(),
    decreases s.len(),
{
    if s.len() > 0 {
        lemma_prune_list_bounds(s.drop_last(), keep);
        let x = s.last() as int;
        if keep[x] {
            lemma_count_true_take_mono(keep, x, keep.len() as int);
            assert(keep.take(keep.len() as int) =~= keep);
        }
    }
}

proof fn lemma_prune_labels_len(targets: Seq<usize>, labels: Seq<Seq<bool>>, keep: Seq<bool>)
    requires
        targets.len() == labels.len(),
    ensures
        prune_labels(targets, labels, keep).len() == prune_list(targets, keep).len(),
    decreases targets.len(),
{
    if targets.len() > 0 {
        lemma_prune_labels_len(targets.drop_last(), labels.drop_last(), keep);
    }
}

/// The kept entries of `s`, by their new numbers.
fn prune_indices(s: &Vec<usize>, keep: &Vec<bool>, old_to_new: &Vec<Option<usize>>) -> (r: Vec<
    usize,
>)
    requires
        forall|k: int| 0 <= k < s@.len() ==> #[trigger] s@[k] < keep@.len(),
        old_to_new@.len() == keep@.len(),
        forall|x: int|
            0 <= x < keep@.len() ==> #[trigger] old_to_new@[x] == if keep@[x] {
                Some(rank(keep@, x) as usize)
            } else {
                None
            },
    ensures
        r@ == prune_list(s@, keep@),
{
    let mut r: Vec<usize> = Vec::new();
    let mut i: usize = 0;
    while i < s.len()
        invariant
            i <= s@.len(),
            forall|k: int| 0 <= k < s@.len() ==> #[trigger] s@[k] < keep@.len(),
            old_to_new@.len() == keep@.len(),
            forall|x: int|
                0 <= x < keep@.len() ==> #[trigger] old_to_new@[x] == if keep@[x] {
                    Some(rank(keep@, x) as usize)
                } else {
                    None
                },
            r@ == prune_list(s@.take(i as int), keep@),
        decreases s.len() - i,
    {
        let x = s[i];
        assert(s@.take(i + 1).drop_last() =~= s@.take(i as int));
        assert(s@.take(i + 1).last() == x);
        if let Some(y) = old_to_new[x] {
            r.push(y);
        }
        i = i + 1;
    }
    assert(s@.take(s@.len() as int) =~= s@);
    r
}

/// The labels of the transitions to kept targets.
fn prune_label_vec(targets: &Vec<usize>, labels: &Vec<Vec<bool>>, keep: &Vec<bool>) -> (r: Vec<
    Vec<bool>,
>)
    requires
        forall|k: int| 0 <= k < targets@.len() ==> #[trigger] targets@[k] < keep@.len(),
        labels@.len() == targets@.len(),
    ensures
        r@.map_values(|l: Vec<bool>| l@) == prune_labels(
            targets@,
            labels@.map_values(|l: Vec<bool>| l@),
            keep@,
        ),
{
    let ghost lv = labels@.map_values(|l: Vec<bool>| l@);
    let mut r: Vec<Vec<bool>> = Vec::new();
    let mut i: usize = 0;
    while i < targets.len()
        invariant
            i <= targets@.len(),
            labels@.len() == targets@.len(),
            lv == labels@.map_values(|l: Vec<bool>| l@),
            forall|k: int| 0 <= k < targets@.len() ==> #[trigger] targets@[k] < keep@.len(),
            r@.map_values(|l: Vec<bool>| l@) == prune_labels(
                targets@.take(i as int),
                lv.take(i as int),
                keep@,
            ),
        decreases targets.len() - i,
    {
        let x = targets[i];
        assert(targets@.take(i + 1).drop_last() =~= targets@.take(i as int));
        assert(lv.take(i + 1).drop_last() =~= lv.take(i as int));
        assert(targets@.take(i + 1).last() == x);
        assert(lv.take(i + 1).last() == labels@[i as int]@);
        let ghost before = r@.map_values(|l: Vec<bool>| l@);
        if keep[x] {
            r.push(labels[i].clone());
            assert(r@.map_values(|l: Vec<bool>| l@) =~= before.push(labels@[i as int]@));
        }
        i = i + 1;
    }
    assert(targets@.take(targets@.len() as int) =~= targets@);
    assert(lv.take(lv.len() as int) =~= lv);
    r
}

impl NBA {
    fn adjacency(&self) -> (r: Vec<Vec<usize>>)
        ensures
            r@.map_values(|v: Vec<usize>| v@) == self.graph_view(),
    {
        let mut adj: Vec<Vec<usize>> = Vec::new();
        let mut i: usize = 0;
        while i < self.transitions.len()
            invariant
                i <= self.transitions@.len(),
                adj@.len() == i,
                forall|j: int| 0 <= j < i ==> (#[trigger] adj@[j])@ == self.transitions@[j].transitions@,
            decreases self.transitions.len() - i,
        {
            adj.push(self.transitions[i].transitions.clone());
            i = i + 1;
        }
        assert(adj@.map_values(|v: Vec<usize>| v@) =~= self.graph_view());
        adj
    }

    /// The initial states.
    pub fn initial_states(&self) -> (r: Vec<usize>)
        ensures
            r@ == self.initial_states@,
    {
        self.initial_states.clone()
    }

    /// Whether a state is accepting.
    pub fn is_accepting(&self, state_id: usize) -> (r: bool)
        ensures
            r == self.acceptance_condition.states@.contains(state_id),
    {
        slice_contains(self.acceptance_condition.states.as_slice(), state_id)
    }

    /// The successors of a state.
    pub fn successors(&self, state_id: usize) -> (r: &[usize])
        requires
            state_id < self.transitions@.len(),
        ensures
            r@ == self.graph_view()[state_id as int],
    {
        self.transitions[state_id].transitions.as_slice()
    }

    /// The strongly connected components of the transition graph: every state lies in one of
    /// them, each is the set of states that reach each other with any of its members, listed
    /// in increasing order, no two are the same, and a component comes after every other
    /// component that its states reach (reverse topological order).
    fn compute_sccs_nba(nba: &NBA) -> (r: Vec<Vec<usize>>)
        requires
            nba.nba_wf(),
        ensures
            forall|v: int| 0 <= v < nba.states@.len() ==> #[trigger] covered(r@, v),
            forall|c: int|
                0 <= c < r@.len() ==> (#[trigger] r@[c])@ == component_of(
                    nba.graph_view(),
                    r@[c]@[0] as int,
                ),
            forall|c: int| 0 <= c < r@.len() ==> (#[trigger] r@[c])@.len() > 0,
            forall|c1: int, c2: int|
                0 <= c1 < r@.len() && 0 <= c2 < r@.len() && c1 != c2 ==> (#[trigger] r@[c1])@[0]
                    != (#[trigger] r@[c2])@[0],
            forall|c1: int, c2: int, u: usize, v: usize|
                0 <= c1 < r@.len() && 0 <= c2 < r@.len() && c1 != c2 && #[trigger] r@[c1]@.contains(u)
                    && #[trigger] r@[c2]@.contains(v) && reaches(nba.graph_view(), u as int, v as int)
                    ==> c2 < c1,
    {
        let adj = nba.adjacency();
        assert(adj@.len() == nba.states@.len()) by {
            assert(adj@.map_values(|v: Vec<usize>| v@).len() == adj@.len());
        }
        components(&adj)
    }

    /// For each state, whether its component has a cycle and an accepting state.
    fn accepting_cycle_marks(&self, sccs: &Vec<Vec<usize>>) -> (r: Vec<bool>)
        requires
            self.nba_wf(),
            forall|v: int| 0 <= v < self.states@.len() ==> #[trigger] covered(sccs@, v),
            forall|c: int|
                0 <= c < sccs@.len() ==> (#[trigger] sccs@[c])@ == component_of(
                    self.graph_view(),
                    sccs@[c]@[0] as int,
                ),
            forall|c: int| 0 <= c < sccs@.len() ==> (#[trigger] sccs@[c])@.len() > 0,
        ensures
            r@.len() == self.states@.len(),
            forall|x: int|
                0 <= x < self.states@.len() ==> (r@[x] <==> on_accepting_cycle_scc(
                    self.graph_view(),
                    self.acceptance_condition.states@,
                    x,
                )),
    {
        let ghost g = self.graph_view();
        let ghost acc = self.acceptance_condition.states@;
        let n = self.states.len();
        assert(g.len() == n);
        let mut marks: Vec<bool> = Vec::new();
        let mut i: usize = 0;
        while i < n
            invariant
                i <= n,
                marks@.len() == i,
                forall|j: int| 0 <= j < i ==> !marks@[j],
            decreases n - i,
        {
            marks.push(false);
            i = i + 1;
        }
        let mut c: usize = 0;
        while c < sccs.len()
            invariant
                self.nba_wf(),
                g == self.graph_view(),
                acc == self.acceptance_condition.states@,
                n == self.states@.len(),
                g.len() == n,
                c <= sccs@.len(),
                marks@.len() == n,
                forall|cc: int|
                    0 <= cc < sccs@.len() ==> (#[trigger] sccs@[cc])@ == component_of(
                        g,
                        sccs@[cc]@[0] as int,
                    ),
                forall|cc: int| 0 <= cc < sccs@.len() ==> (#[trigger] sccs@[cc])@.len() > 0,
                forall|x: int|
                    0 <= x < n ==> (marks@[x] <==> exists|c2: int|
                        0 <= c2 < c && #[trigger] sccs@[c2]@.contains(x as usize) && comp_good(
                            g,
                            acc,
                            sccs@[c2]@,
                        )),
            decreases sccs.len() - c,
        {
            let comp = &sccs[c];
            assert(comp@.len() > 0);
            let first = comp[0];
            proof {
                lemma_filter_ids(n as nat, |w: int| mutual(g, first as int, w));
            }
            assert(first < n);
            let self_loop = slice_contains(self.successors(first), first);
            assert(self_loop == has_edge(g, first as int, first as int)) by {
                if self_loop {
                    let k = choose|k: int| 0 <= k < g[first as int].len() && g[first as int][k] == first;
                    assert(g[first as int][k] as int == first as int);
                }
            }
            let cyclic = comp.len() > 1 || self_loop;
            let mut has_acc = false;
            let mut j: usize = 0;
            while j < comp.len()
                invariant
                    j <= comp@.len(),
                    has_acc == exists|jj: int| 0 <= jj < j && acc.contains(#[trigger] comp@[jj]),
                    acc == self.acceptance_condition.states@,
                decreases comp.len() - j,
            {
                if self.is_accepting(comp[j]) {
                    has_acc = true;
                }
                j = j + 1;
            }
            let good = cyclic && has_acc;
            assert(good == comp_good(g, acc, comp@));
            let ghost marks_before = marks@;
            proof {
                assert forall|k: int| 0 <= k < comp@.len() implies #[trigger] comp@[k] < n by {
                    lemma_filter_ids(g.len(), |w: int| mutual(g, first as int, w));
                }
            }
            if good {
                let mut m: usize = 0;
                while m < comp.len()
                    invariant
                        m <= comp@.len(),
                        marks@.len() == n,
                        marks_before.len() == n,
                        forall|k: int| 0 <= k < comp@.len() ==> #[trigger] comp@[k] < n,
                        forall|x: int|
                            0 <= x < n ==> (#[trigger] marks@[x] <==> (marks_before[x]
                                || comp@.take(m as int).contains(x as usize))),
                    decreases comp.len() - m,
                {
                    let target = comp[m];
                    let ghost prev = marks@;
                    marks.set(target, true);
                    proof {
                        assert(comp@.take(m + 1) =~= comp@.take(m as int).push(target));
                        assert forall|x: int| 0 <= x < n implies (#[trigger] marks@[x] <==> (
                        marks_before[x] || comp@.take(m + 1).contains(x as usize))) by {
                            if x == target as int {
                                assert(comp@.take(m + 1)[m as int] == x as usize);
                            } else {
                                assert(marks@[x] == prev[x]);
                                if comp@.take(m + 1).contains(x as usize) {
                                    let t1 = comp@.take(m + 1);
                                    let k = choose|k: int| 0 <= k < m + 1 && #[trigger] t1[k] == x as usize;
                                    assert(comp@.take(m as int)[k] == x as usize);
                                }
                                if comp@.take(m as int).contains(x as usize) {
                                    let t0 = comp@.take(m as int);
                                    let k = choose|k: int| 0 <= k < m && #[trigger] t0[k] == x as usize;
                                    assert(comp@.take(m + 1)[k] == x as usize);
                                }
                            }
                        }
                    }
                    m = m + 1;
                }
            }
            proof {
                assert forall|x: int|
                    0 <= x < n implies (marks@[x] <==> exists|c2: int|
                        0 <= c2 < c + 1 && #[trigger] sccs@[c2]@.contains(x as usize) && comp_good(
                            g,
                            acc,
                            sccs@[c2]@,
                        )) by {
                    if good && comp@.contains(x as usize) {
                        assert(comp@.take(comp@.len() as int) =~= comp@);
                        assert(marks@[x]);
                    }
                    if good {
                        assert(comp@.take(comp@.len() as int) =~= comp@);
                    }
                    if !good {
                        assert(marks@[x] == marks_before[x]);
                    }
                    if marks@[x] && !marks_before[x] {
                        assert(sccs@[c as int]@.contains(x as usize));
                    }
                }
            }
            c = c + 1;
        }
        proof {
            assert forall|x: int|
                0 <= x < n implies (marks@[x] <==> on_accepting_cycle_scc(g, acc, x)) by {
                assert(covered(sccs@, x));
                let c0 = choose|c0: int| 0 <= c0 < sccs@.len() && #[trigger] sccs@[c0]@.contains(x as usize);
                lemma_component_good(g, acc, sccs@[c0]@, sccs@[c0]@[0] as int, x);
                if marks@[x] {
                    let c2 = choose|c2: int|
                        0 <= c2 < sccs@.len() && #[trigger] sccs@[c2]@.contains(x as usize) && comp_good(
                            g,
                            acc,
                            sccs@[c2]@,
                        );
                    lemma_component_good(g, acc, sccs@[c2]@, sccs@[c2]@[0] as int, x);
                }
            }
        }
        marks
    }
}

impl NBA {
    /// Which states lie on an accepting run: those that a search from the initial states
    /// finds and that a search backwards from the states of accepting cyclic components finds.
    fn useful_marks(&self, adj: &Vec<Vec<usize>>, acs: &Vec<bool>) -> (r: Vec<bool>)
        requires
            self.nba_wf(),
            adj@.map_values(|v: Vec<usize>| v@) == self.graph_view(),
            acs@.len() == self.states@.len(),
            forall|x: int|
                0 <= x < self.states@.len() ==> (acs@[x] <==> on_accepting_cycle_scc(
                    self.graph_view(),
                    self.acceptance_condition.states@,
                    x,
                )),
        ensures
            r@ == self.useful(),
    {
        let ghost g = self.graph_view();
        let ghost init = self.initial_states@;
        let ghost acc = self.acceptance_condition.states@;
        let n = self.states.len();
        assert(g.len() == n);
        assert(adj@.len() == n) by {
            assert(adj@.map_values(|v: Vec<usize>| v@).len() == adj@.len());
        }
        let mut starts: Vec<bool> = Vec::new();
        let mut i: usize = 0;
        while i < n
            invariant
                i <= n,
                starts@.len() == i,
                forall|j: int| 0 <= j < i ==> !starts@[j],
            decreases n - i,
        {
            starts.push(false);
            i = i + 1;
        }
        let mut i: usize = 0;
        while i < self.initial_states.len()
            invariant
                self.nba_wf(),
                n == self.states@.len(),
                init == self.initial_states@,
                i <= init.len(),
                starts@.len() == n,
                forall|x: int| 0 <= x < n ==> (starts@[x] <==> exists|ii: int| 0 <= ii < i && init[ii] as int == x),
            decreases self.initial_states.len() - i,
        {
            let s = self.initial_states[i];
            assert(s < n);
            let ghost prev = starts@;
            starts.set(s, true);
            assert forall|x: int| 0 <= x < n implies (starts@[x] <==> exists|ii: int| 0 <= ii < i + 1 && init[ii] as int == x) by {
                if x == s as int {
                    assert(init[i as int] as int == x);
                } else if prev[x] {
                    let ii = choose|ii: int| 0 <= ii < i && init[ii] as int == x;
                    assert(0 <= ii < i + 1 && init[ii] as int == x);
                }
            }
            i = i + 1;
        }
        let from_init = reached_from_marked(adj, &starts);
        let rev = reverse_graph(adj);
        let ghost rv = rev@.map_values(|v: Vec<usize>| v@);
        let to_cycle = reached_from_marked(&rev, acs);
        let mut keep: Vec<bool> = Vec::new();
        let mut x: usize = 0;
        while x < n
            invariant
                x <= n,
                n == self.states@.len(),
                g.len() == n,
                rv.len() == n,
                g == adj@.map_values(|v: Vec<usize>| v@),
                rv == rev@.map_values(|v: Vec<usize>| v@),
                edges_turned(g, rv),
                edges_turned(rv, g),
                valid_graph(g),
                init == self.initial_states@,
                forall|ii: int| 0 <= ii < init.len() ==> #[trigger] init[ii] < n,
                starts@.len() == n,
                forall|y: int| 0 <= y < n ==> (starts@[y] <==> exists|ii: int| 0 <= ii < init.len() && init[ii] as int == y),
                acs@.len() == n,
                forall|y: int| 0 <= y < n ==> (acs@[y] <==> on_accepting_cycle_scc(g, acc, y)),
                from_init@.len() == n,
                forall|v: int|
                    0 <= v < n ==> (from_init@[v] <==> exists|s: int| 0 <= s < n && #[trigger] starts@[s] && reaches(g, s, v)),
                to_cycle@.len() == n,
                forall|v: int|
                    0 <= v < n ==> (to_cycle@[v] <==> exists|s: int| 0 <= s < n && #[trigger] acs@[s] && reaches(rv, s, v)),
                keep@.len() == x,
                forall|j: int| 0 <= j < x ==> keep@[j] == useful_state(g, init, acc, j),
            decreases n - x,
        {
            proof {
                let xi = x as int;
                if from_init@[xi] {
                    let s = choose|s: int| 0 <= s < n && #[trigger] starts@[s] && reaches(g, s, xi);
                    let ii = choose|ii: int| 0 <= ii < init.len() && init[ii] as int == s;
                    assert(reaches(g, init[ii] as int, xi));
                }
                if exists|ii: int| 0 <= ii < init.len() && #[trigger] reaches(g, init[ii] as int, xi) {
                    let ii = choose|ii: int| 0 <= ii < init.len() && #[trigger] reaches(g, init[ii] as int, xi);
                    let s = init[ii] as int;
                    assert(starts@[s]);
                    assert(0 <= s < n && starts@[s] && reaches(g, s, xi));
                }
                if to_cycle@[xi] {
                    let s = choose|s: int| 0 <= s < n && #[trigger] acs@[s] && reaches(rv, s, xi);
                    lemma_reaches_turned(rv, g, s, xi);
                    assert(reaches(g, xi, s) && on_accepting_cycle_scc(g, acc, s));
                }
                if exists|yy: int| #[trigger] reaches(g, xi, yy) && on_accepting_cycle_scc(g, acc, yy) {
                    let yy = choose|yy: int| #[trigger] reaches(g, xi, yy) && on_accepting_cycle_scc(g, acc, yy);
                    let p = choose|p: Seq<int>| #[trigger] crate::graph::is_path(g, p) && p[0] == xi && p.last() == yy;
                    assert(0 <= p[p.len() - 1] < g.len());
                    lemma_reaches_turned(g, rv, xi, yy);
                    assert(0 <= yy < n && acs@[yy] && reaches(rv, yy, xi));
                }
            }
            keep.push(from_init[x] && to_cycle[x]);
            x = x + 1;
        }
        assert(keep@ =~= self.useful());
        keep
    }

    /// Takes out the states that lie on no accepting run, numbering the others anew in their
    /// old order.
    pub fn remove_dead_states(&mut self)
        requires
            old(self).nba_wf(),
        ensures
            final(self).pruned_from(*old(self)),
            final(self).nba_wf(),
    {
        let ghost before = *self;
        let n = self.states.len();
        let adj = self.adjacency();
        assert(adj@.len() == n) by {
            assert(adj@.map_values(|v: Vec<usize>| v@).len() == adj@.len());
        }
        let sccs = Self::compute_sccs_nba(self);
        let acs = self.accepting_cycle_marks(&sccs);
        let keep = self.useful_marks(&adj, &acs);
        let ghost kp = |x: int| keep@[x];
        let ghost kept = filter_ids(n as nat, kp);
        proof {
            lemma_filter_ids(n as nat, kp);
            assert(forall|x: int| 0 <= x < n ==> #[trigger] kp(x) == keep@[x]);
        }
        // new numbers, states and the index of pairs
        let mut old_to_new: Vec<Option<usize>> = Vec::new();
        let mut new_states: Vec<State> = Vec::new();
        let mut new_to_gnba: Vec<(usize, usize, usize)> = Vec::new();
        let mut gnba_to_new = pair_index_new();
        assert(index_map(new_to_gnba@) =~= Map::<(usize, usize), usize>::empty());
        let mut old_id: usize = 0;
        while old_id < n
            invariant
                before == *self,
                self.nba_wf(),
                n == self.states@.len(),
                keep@ == self.useful(),
                keep@.len() == n,
                forall|x: int| 0 <= x < n ==> #[trigger] kp(x) == keep@[x],
                old_id <= n,
                old_to_new@.len() == old_id,
                forall|x: int|
                    0 <= x < old_id ==> #[trigger] old_to_new@[x] == if keep@[x] {
                        Some(rank(keep@, x) as usize)
                    } else {
                        None
                    },
                new_states@.len() == filter_ids(old_id as nat, kp).len(),
                new_to_gnba@.len() == new_states@.len(),
                forall|j: int|
                    0 <= j < new_states@.len() ==> (#[trigger] new_states@[j]).id == j
                        && new_states@[j].formulas@ == self.states@[filter_ids(old_id as nat, kp)[j] as int].formulas@,
                forall|j: int|
                    0 <= j < new_to_gnba@.len() ==> #[trigger] new_to_gnba@[j] == (
                        self.new_to_gnba@[filter_ids(old_id as nat, kp)[j] as int].0,
                        self.new_to_gnba@[filter_ids(old_id as nat, kp)[j] as int].1,
                        j as usize,
                    ),
                pair_index_contents(gnba_to_new) == index_map(new_to_gnba@),
            decreases n - old_id,
        {
            proof {
                lemma_filter_count(keep@, kp, old_id as nat);
                lemma_filter_ids(old_id as nat, kp);
            }
            if keep[old_id] {
                let new_id = new_states.len();
                assert(new_id == rank(keep@, old_id as int));
                old_to_new.push(Some(new_id));
                new_states.push(State { id: new_id, formulas: self.states[old_id].formulas.clone() });
                let entry = self.new_to_gnba[old_id];
                let orig_state_id = entry.0;
                let acc_id = entry.1;
                let ghost prev_entries = new_to_gnba@;
                new_to_gnba.push((orig_state_id, acc_id, new_id));
                pair_index_insert(&mut gnba_to_new, (orig_state_id, acc_id), new_id);
                assert(new_to_gnba@.drop_last() =~= prev_entries);
            } else {
                old_to_new.push(None);
            }
            old_id = old_id + 1;
        }
        proof {
            lemma_filter_count(keep@, kp, n as nat);
        }
        // initial and accepting states
        let new_initial = prune_indices(&self.initial_states, &keep, &old_to_new);
        let new_accepting = prune_indices(&self.acceptance_condition.states, &keep, &old_to_new);
        // transitions
        let mut new_transitions: Vec<Transitions> = Vec::new();
        let mut old_from: usize = 0;
        while old_from < n
            invariant
                before == *self,
                self.nba_wf(),
                n == self.states@.len(),
                keep@ == self.useful(),
                keep@.len() == n,
                forall|x: int| 0 <= x < n ==> #[trigger] kp(x) == keep@[x],
                old_from <= n,
                old_to_new@.len() == n,
                forall|x: int|
                    0 <= x < n ==> #[trigger] old_to_new@[x] == if keep@[x] {
                        Some(rank(keep@, x) as usize)
                    } else {
                        None
                    },
                new_transitions@.len() == filter_ids(old_from as nat, kp).len(),
                forall|j: int|
                    0 <= j < new_transitions@.len() ==> (#[trigger] new_transitions@[j]).transitions@
                        == prune_list(self.transitions@[filter_ids(old_from as nat, kp)[j] as int].transitions@, keep@)
                        && new_transitions@[j].label@.map_values(|l: Vec<bool>| l@) == prune_labels(
                            self.transitions@[filter_ids(old_from as nat, kp)[j] as int].transitions@,
                            self.transitions@[filter_ids(old_from as nat, kp)[j] as int].label@.map_values(
                                |l: Vec<bool>| l@,
                            ),
                            keep@,
                        ),
            decreases n - old_from,
        {
            proof {
                lemma_filter_ids(old_from as nat, kp);
            }
            if keep[old_from] {
                let entry = &self.transitions[old_from];
                assert(self.graph_view()[old_from as int] == entry.transitions@);
                assert forall|k: int| 0 <= k < entry.transitions@.len() implies #[trigger] entry.transitions@[k]
                    < keep@.len() by {
                    assert(self.graph_view()[old_from as int][k] < self.graph_view().len());
                }
                let targets = prune_indices(&entry.transitions, &keep, &old_to_new);
                let labels = prune_label_vec(&entry.transitions, &entry.label, &keep);
                new_transitions.push(Transitions { transitions: targets, label: labels });
            }
            old_from = old_from + 1;
        }
        self.states = new_states;
        self.transitions = new_transitions;
        self.initial_states = new_initial;
        self.acceptance_condition = AcceptanceCondition { states: new_accepting };
        self.new_to_gnba = new_to_gnba;
        self.gnba_to_new = gnba_to_new;
        proof {
            assert(self.pruned_from(before));
            let newn = self.states@.len();
            assert(newn == count_true(keep@)) by {
                assert(keep@.take(n as int) =~= keep@);
            }
            assert forall|j: int, k: int|
                0 <= j < self.graph_view().len() && 0 <= k < self.graph_view()[j].len() implies #[trigger] self.graph_view()[j][k]
                < self.graph_view().len() by {
                let o = kept[j] as int;
                assert(before.graph_view()[o] == before.transitions@[o].transitions@);
                assert forall|kk: int| 0 <= kk < before.transitions@[o].transitions@.len() implies #[trigger] before.transitions@[o].transitions@[kk]
                    < keep@.len() by {
                    assert(before.graph_view()[o][kk] < before.graph_view().len());
                }
                lemma_prune_list_bounds(before.transitions@[o].transitions@, keep@);
                assert(self.graph_view()[j] == self.transitions@[j].transitions@);
            }
            assert forall|j: int| 0 <= j < self.transitions@.len() implies (#[trigger] self.transitions@[j]).label@.len()
                == self.transitions@[j].transitions@.len() by {
                let o = kept[j] as int;
                lemma_prune_labels_len(
                    before.transitions@[o].transitions@,
                    before.transitions@[o].label@.map_values(|l: Vec<bool>| l@),
                    keep@,
                );
                assert(self.transitions@[j].label@.map_values(|l: Vec<bool>| l@).len() == self.transitions@[j].label@.len());
            }
            assert forall|k: int| 0 <= k < before.initial_states@.len() implies #[trigger] before.initial_states@[k] < keep@.len() by {}
            lemma_prune_list_bounds(before.initial_states@, keep@);
            assert forall|k: int| 0 <= k < before.acceptance_condition.states@.len() implies #[trigger] before.acceptance_condition.states@[k] < keep@.len() by {}
            lemma_prune_list_bounds(before.acceptance_condition.states@, keep@);
        }
    }
}

} // verus!
