use vstd::prelude::*;

use rustc_hash::FxHashMap;

use crate::closure::fviews;
use crate::counting::{lemma_distinct_markings, lemma_distinct_pairs, marking_space};
use crate::emptyness::{aut_lasso, check_emptyness_generic, error_allowed, graph_walk, Automaton, MemoryProbe, ModelCheckConfig, ModelCheckError, Watch};
use crate::ltl_parser::{Formula, LTL};
use crate::nba_build::nba_size_ok;
use crate::ndfs::{explored, run_ndfs, walk};
use crate::gnba::spec_label;
use crate::marking_label::{compute_label, marking_label};
use crate::nba::{pair_index_contents, pair_index_get, pair_index_insert, pair_index_new, PairIndex, NBA};
use crate::ndfs::{edge, grows, lasso, NdfsEngine};
use crate::petri_net::{fire, give_tokens, next_markings, take_tokens, PetriNet, PetriState};
use crate::closure::spec_closure;
use crate::language::language_exact;
use crate::net_language::{
    atoms_evaluate, covers_reachable, firing_sequence, lemma_counterexample, lemma_holds_everywhere,
    marking_trace,
};
use crate::pnf::spec_automaton_formula;
use crate::semantics::holds;

verus! {

/// A map from markings to their numbers.
pub type MarkingIndex = FxHashMap<Vec<u32>, usize>;

/// What a map from markings to numbers holds.
pub uninterp spec fn marking_index_contents(m: MarkingIndex) -> Map<Seq<u32>, usize>;

/// `FxHashMap::default`: a map that holds nothing.
#[verifier::external_body]
fn marking_index_new() -> (r: MarkingIndex)
    ensures
        marking_index_contents(r) =~= Map::empty(),
{
    FxHashMap::default()
}

/// `HashMap::insert` on an `FxHashMap` keyed by token vectors: afterwards the vector maps to
/// the value and every other vector to what it mapped to before.
#[verifier::external_body]
fn marking_index_insert(m: &mut MarkingIndex, key: Vec<u32>, value: usize)
    ensures
        marking_index_contents(*final(m)) == marking_index_contents(*old(m)).insert(key@, value),
{
    m.insert(key, value);
}

/// `HashMap::get` on an `FxHashMap` keyed by token vectors: the value the vector maps to.
#[verifier::external_body]
fn marking_index_get(m: &MarkingIndex, key: &Vec<u32>) -> (r: Option<usize>)
    ensures
        r == (if marking_index_contents(*m).dom().contains(key@) {
            Some(marking_index_contents(*m)[key@])
        } else {
            None
        }),
{
    m.get(key).copied()
}

/// A state of the product of a Petri net and an NBA.
#[derive(Clone, Debug, PartialEq, Eq, Hash)]
pub struct CombinedState {
    pub petri_state: PetriState,
    pub nba_state: usize,
}

/// The value of a product state: its marking and its automaton state.
pub open spec fn combined_view(c: CombinedState) -> (Seq<u32>, usize) {
    (c.petri_state.tokens@, c.nba_state)
}

/// The successors of NBA state `q` when the next marking carries `label`.
pub open spec fn nba_next_spec(nba: NBA, q: int, label: Seq<bool>) -> Seq<usize> {
    if 0 <= q < nba.states@.len() && spec_label(
        nba.gnba.vectors()[nba.new_to_gnba@[q].0 as int],
        nba.gnba.closure_view(),
    ) == label {
        nba.graph_view()[q]
    } else {
        seq![]
    }
}

/// The label of a marking for the NBA.
pub open spec fn label_of(net: PetriNet, nba: NBA, t: Seq<u32>) -> Seq<bool> {
    marking_label(fviews(nba.closure@), net, t)
}

/// Each NBA state paired with the marking.
pub open spec fn pair_with(t: Seq<u32>, qs: Seq<usize>) -> Seq<(Seq<u32>, usize)> {
    qs.map_values(|q: usize| (t, q))
}

/// The product steps into the markings `ms` from NBA state `q`.
pub open spec fn prod_from(net: PetriNet, nba: NBA, ms: Seq<Seq<u32>>, q: int) -> Seq<(Seq<u32>, usize)>
    decreases ms.len(),
{
    if ms.len() == 0 {
        seq![]
    } else {
        prod_from(net, nba, ms.drop_last(), q) + pair_with(
            ms.last(),
            nba_next_spec(nba, q, label_of(net, nba, ms.last())),
        )
    }
}

/// The successors of a product state: for each marking that one transition leads to, in
/// order, each NBA successor whose label is that marking's label.
pub open spec fn prod_succ(net: PetriNet, nba: NBA, st: (Seq<u32>, usize)) -> Seq<(Seq<u32>, usize)> {
    prod_from(net, nba, next_markings(net.arcs(), st.0), st.1 as int)
}

/// The roots from the initial NBA states `qs`: each successor whose label is the initial
/// marking's label, paired with the initial marking.
pub open spec fn roots_from(net: PetriNet, nba: NBA, qs: Seq<usize>) -> Seq<(Seq<u32>, usize)>
    decreases qs.len(),
{
    if qs.len() == 0 {
        seq![]
    } else {
        let m0 = net.initial_tokens@;
        roots_from(net, nba, qs.drop_last()) + pair_with(
            m0,
            nba_next_spec(nba, qs.last() as int, label_of(net, nba, m0)),
        )
    }
}

/// The roots of the product search.
pub open spec fn prod_roots(net: PetriNet, nba: NBA) -> Seq<(Seq<u32>, usize)> {
    roots_from(net, nba, nba.initial_states@)
}

/// `p` follows product steps.
pub open spec fn prod_walk(net: PetriNet, nba: NBA, p: Seq<(Seq<u32>, usize)>) -> bool {
    forall|i: int| 0 <= i < p.len() - 1 ==> prod_succ(net, nba, p[i]).contains(#[trigger] p[i + 1])
}

/// A counterexample: `st` leads from a root to a state of an accepting NBA state, and `st2`
/// from there to a state with a successor on `st`, so that the accepting state recurs forever.
pub open spec fn prod_lasso(
    net: PetriNet,
    nba: NBA,
    st: Seq<(Seq<u32>, usize)>,
    st2: Seq<(Seq<u32>, usize)>,
) -> bool {
    &&& st.len() >= 1
    &&& prod_roots(net, nba).contains(st[0])
    &&& prod_walk(net, nba, st)
    &&& nba.acceptance_condition.states@.contains(st.last().1)
    &&& st2.len() >= 1
    &&& st2[0] == st.last()
    &&& prod_walk(net, nba, st2)
    &&& exists|c: (Seq<u32>, usize)| st.contains(c) && #[trigger] prod_succ(net, nba, st2.last()).contains(c)
}

/// Every outgoing arc leads to a place of the initial marking, and no transition has as many
/// incoming arcs as `u32::MAX`.
pub open spec fn net_ok(net: PetriNet) -> bool {
    &&& net.arcs_countable()
    &&& forall|i: int, k: int|
        0 <= i < net.arcs().len() && 0 <= k < net.arcs()[i].1.len() ==> #[trigger] net.arcs()[i].1[k]
            < net.initial_tokens@.len()
}

/// The product search: markings and product states are numbered as they are met.
pub struct ProductNdfs<'a, P: MemoryProbe> {
    pub petri: &'a PetriNet,
    pub nba: &'a NBA,
    pub markings: Vec<Vec<u32>>,
    pub marking_ids: MarkingIndex,
    pub petri_successor_cache: Vec<Option<Vec<Vec<u32>>>>,
    pub label_cache: Vec<Option<Vec<bool>>>,
    pub states: Vec<(usize, usize)>,
    pub state_ids: PairIndex,
    pub succ_log: Ghost<Seq<Option<Seq<usize>>>>,
    pub watch: Watch<P>,
}

proof fn lemma_take_len(t: Seq<u32>, arcs: Seq<u32>)
    ensures
        take_tokens(t, arcs).len() == t.len(),
    decreases arcs.len(),
{
    if arcs.len() > 0 {
        lemma_take_len(t, arcs.drop_last());
    }
}

proof fn lemma_give_len(t: Seq<u32>, arcs: Seq<u32>)
    ensures
        give_tokens(t, arcs).len() == t.len(),
    decreases arcs.len(),
{
    if arcs.len() > 0 {
        lemma_give_len(t, arcs.drop_last());
    }
}

/// Firing keeps the number of places.
pub proof fn lemma_next_markings_len(trs: Seq<(Seq<u32>, Seq<u32>)>, t: Seq<u32>)
    ensures
        forall|j: int| 0 <= j < next_markings(trs, t).len() ==> (#[trigger] next_markings(trs, t)[j]).len() == t.len(),
    decreases trs.len(),
{
    if trs.len() > 0 {
        lemma_next_markings_len(trs.drop_last(), t);
        lemma_take_len(t, trs.last().0);
        lemma_give_len(take_tokens(t, trs.last().0), trs.last().1);
        let p = next_markings(trs.drop_last(), t);
        assert(fire(t, trs.last()).len() == t.len());
        assert forall|j: int| 0 <= j < next_markings(trs, t).len() implies (#[trigger] next_markings(trs, t)[j]).len() == t.len() by {
            if j < p.len() {
                assert(p[j].len() == t.len());
            }
        }
    }
}

impl<'a, P: MemoryProbe> ProductNdfs<'a, P> {
    pub open spec fn mviews(&self) -> Seq<Seq<u32>> {
        self.markings@.map_values(|v: Vec<u32>| v@)
    }

    pub open spec fn np(&self) -> nat {
        self.petri.initial_tokens@.len()
    }

    pub open spec fn nq(&self) -> nat {
        self.nba.states@.len()
    }

    /// The product state numbered `i`.
    pub open spec fn denote(&self, i: int) -> (Seq<u32>, usize) {
        (self.mviews()[self.states@[i].0 as int], self.states@[i].1)
    }

    /// The values of a list of numbered product states.
    pub open spec fn denote_all(&self, v: Seq<usize>) -> Seq<(Seq<u32>, usize)> {
        v.map_values(|j: usize| self.denote(j as int))
    }

    pub open spec fn markings_ok(&self) -> bool {
        &&& forall|i: int| 0 <= i < self.markings@.len() ==> (#[trigger] self.mviews()[i]).len() == self.np()
        &&& forall|i: int|
            0 <= i < self.markings@.len() ==> marking_index_contents(self.marking_ids).dom().contains(
                #[trigger] self.mviews()[i],
            ) && marking_index_contents(self.marking_ids)[self.mviews()[i]] == i
        &&& forall|x: Seq<u32>|
            #[trigger] marking_index_contents(self.marking_ids).dom().contains(x) ==> marking_index_contents(
                self.marking_ids,
            )[x] < self.markings@.len() && self.mviews()[marking_index_contents(self.marking_ids)[x] as int]
                == x
        &&& self.petri_successor_cache@.len() == self.markings@.len()
        &&& self.label_cache@.len() == self.markings@.len()
        &&& forall|i: int|
            0 <= i < self.markings@.len() && #[trigger] self.petri_successor_cache@[i] is Some ==> self.petri_successor_cache@[i]->Some_0@.map_values(
                |v: Vec<u32>| v@,
            ) == next_markings(self.petri.arcs(), self.mviews()[i])
        &&& forall|i: int|
            0 <= i < self.markings@.len() && #[trigger] self.label_cache@[i] is Some ==> self.label_cache@[i]->Some_0@
                == label_of(*self.petri, *self.nba, self.mviews()[i])
    }

    pub open spec fn states_ok(&self) -> bool {
        &&& forall|i: int|
            0 <= i < self.states@.len() ==> (#[trigger] self.states@[i]).0 < self.markings@.len()
                && self.states@[i].1 < self.nq()
        &&& forall|i: int|
            0 <= i < self.states@.len() ==> pair_index_contents(self.state_ids).dom().contains(
                #[trigger] self.states@[i],
            ) && pair_index_contents(self.state_ids)[self.states@[i]] == i
        &&& forall|p: (usize, usize)|
            #[trigger] pair_index_contents(self.state_ids).dom().contains(p) ==> pair_index_contents(
                self.state_ids,
            )[p] < self.states@.len() && self.states@[pair_index_contents(self.state_ids)[p] as int]
                == p
    }

    pub open spec fn log_ok(&self) -> bool {
        &&& self.succ_log@.len() == self.states@.len()
        &&& forall|i: int|
            0 <= i < self.states@.len() && #[trigger] self.succ_log@[i] is Some ==> {
                let v = self.succ_log@[i]->Some_0;
                &&& forall|k: int| 0 <= k < v.len() ==> #[trigger] v[k] < self.states@.len()
                &&& self.denote_all(v) == prod_succ(
                    *self.petri,
                    *self.nba,
                    self.denote(i),
                )
            }
    }
}

impl<'a, P: MemoryProbe> NdfsEngine for ProductNdfs<'a, P> {
    open spec fn count(&self) -> nat {
        self.states@.len()
    }

    open spec fn cap(&self) -> nat {
        marking_space(self.np()) * self.nq()
    }

    open spec fn succ_of(&self, s: int) -> Option<Seq<usize>> {
        if 0 <= s < self.states@.len() {
            self.succ_log@[s]
        } else {
            None
        }
    }

    open spec fn acc(&self, s: int) -> bool {
        self.nba.acceptance_condition.states@.contains(self.states@[s].1)
    }

    open spec fn cfg(&self) -> ModelCheckConfig {
        self.watch.config
    }

    open spec fn inv(&self) -> bool {
        &&& net_ok(*self.petri)
        &&& self.nba.wf_full()
        &&& self.markings_ok()
        &&& self.states_ok()
        &&& self.log_ok()
    }

    open spec fn keeps(&self, later: Self) -> bool {
        later.keeps_ids(*self)
    }

    proof fn lemma_keeps_refl(a: Self) {
    }

    proof fn lemma_keeps_trans(a: Self, b: Self, c: Self) {
        assert forall|i: int| 0 <= i < a.markings@.len() implies #[trigger] c.mviews()[i] == a.mviews()[i] by {
            assert(b.mviews()[i] == a.mviews()[i]);
        }
        assert forall|i: int| 0 <= i < a.states@.len() implies #[trigger] c.states@[i] == a.states@[i] by {
            assert(b.states@[i] == a.states@[i]);
        }
    }

    fn num_states(&self) -> (r: usize) {
        self.states.len()
    }

    fn check_limits(&mut self) -> (r: Result<(), ModelCheckError>) {
        proof {
            self.lemma_count_cap();
        }
        self.watch.check()
    }

    fn successors(&mut self, s: usize) -> (r: Result<Vec<usize>, ModelCheckError>) {
        let ghost e0 = *self;
        let pair = self.states[s];
        let m = pair.0;
        let q = pair.1;
        assert(self.states@[s as int] == pair);
        assert(m < self.markings@.len());
        let nexts = self.petri_successors_cached(m);
        let ghost ms = next_markings(self.petri.arcs(), self.mviews()[m as int]);
        proof {
            lemma_next_markings_len(self.petri.arcs(), self.mviews()[m as int]);
        }
        let mut result: Vec<usize> = Vec::new();
        let mut k: usize = 0;
        while k < nexts.len()
            invariant
                self.inv(),
                self.unchanged_from(e0),
                s < e0.states@.len(),
                e0.states@[s as int] == (m, q),
                nexts@.map_values(|v: Vec<u32>| v@) == ms,
                ms.len() == nexts@.len(),
                m < e0.markings@.len(),
                ms == next_markings(self.petri.arcs(), e0.mviews()[m as int]),
                forall|j: int| 0 <= j < ms.len() ==> (#[trigger] ms[j]).len() == self.np(),
                k <= nexts@.len(),
                forall|j: int| 0 <= j < result@.len() ==> #[trigger] result@[j] < self.states@.len(),
                self.denote_all(result@) == prod_from(
                    *self.petri,
                    *self.nba,
                    ms.take(k as int),
                    q as int,
                ),
            decreases nexts.len() - k,
        {
            assert(nexts@[k as int]@ == ms[k as int]);
            let mid = self.intern_marking(nexts[k].clone());
            let label = self.compute_label_cached(mid);
            let qs = self.nba.next(q, label.as_slice());
            let ghost base = self.denote_all(result@);
            let ghost before_k = result@.len();
            let mut i: usize = 0;
            while i < qs.len()
                invariant
                    self.inv(),
                    self.unchanged_from(e0),
                    mid < self.markings@.len(),
                    self.mviews()[mid as int] == ms[k as int],
                    forall|j: int| 0 <= j < qs@.len() ==> #[trigger] qs@[j] < self.nq(),
                    i <= qs@.len(),
                    forall|j: int| 0 <= j < result@.len() ==> #[trigger] result@[j] < self.states@.len(),
                    result@.len() == before_k + i,
                    self.denote_all(result@) == base + pair_with(
                        ms[k as int],
                        qs@.take(i as int),
                    ),
                decreases qs.len() - i,
            {
                let ghost prev = self.denote_all(result@);
                let ghost e1 = *self;
                let sid = self.intern_state(mid, qs[i]);
                result.push(sid);
                proof {
                    assert forall|j: int| 0 <= j < prev.len() implies #[trigger] self.denote_all(result@)[j] == prev[j] by {
                        assert(e1.denote(result@[j] as int) == self.denote(result@[j] as int));
                    }
                    assert(self.denote_all(result@)[prev.len() as int] == self.denote(sid as int));
                    assert(self.denote(sid as int) == (ms[k as int], qs@[i as int]));
                    assert(pair_with(ms[k as int], qs@.take(i + 1)) =~= pair_with(ms[k as int], qs@.take(i as int)).push((ms[k as int], qs@[i as int])));
                    assert(self.denote_all(result@) =~= base + pair_with(
                        ms[k as int],
                        qs@.take(i + 1),
                    ));
                }
                i = i + 1;
            }
            proof {
                assert(qs@.take(qs@.len() as int) =~= qs@);
                assert(ms.take(k + 1).drop_last() =~= ms.take(k as int));
                assert(self.denote_all(result@) =~= prod_from(
                    *self.petri,
                    *self.nba,
                    ms.take(k + 1),
                    q as int,
                ));
            }
            k = k + 1;
        }
        proof {
            assert(ms.take(ms.len() as int) =~= ms);
            assert(self.denote(s as int) == e0.denote(s as int));
            assert(self.denote_all(result@) == prod_succ(*self.petri, *self.nba, self.denote(s as int)));
            if e0.succ_log@[s as int] is Some {
                let old_v = e0.succ_log@[s as int]->Some_0;
                assert(e0.denote_all(old_v) == prod_succ(*e0.petri, *e0.nba, e0.denote(s as int)));
                assert forall|k: int| 0 <= k < old_v.len() implies #[trigger] old_v[k] < self.states@.len() by {
                    assert(old_v[k] < e0.states@.len());
                }
                assert(self.denote_all(old_v) =~= e0.denote_all(old_v)) by {
                    assert forall|k: int| 0 <= k < old_v.len() implies #[trigger] self.denote(old_v[k] as int) == e0.denote(old_v[k] as int) by {
                        assert(old_v[k] < e0.states@.len());
                        assert(self.states@[old_v[k] as int] == e0.states@[old_v[k] as int]);
                        assert(e0.states@[old_v[k] as int].0 < e0.markings@.len());
                    }
                }
                self.lemma_same_successors(old_v, result@, s as int);
            }
        }
        let ghost e2 = *self;
        self.succ_log = Ghost(self.succ_log@.update(s as int, Some(result@)));
        proof {
            assert forall|i: int| 0 <= i < self.states@.len() && #[trigger] self.succ_log@[i] is Some implies ({
                let v = self.succ_log@[i]->Some_0;
                &&& forall|k: int| 0 <= k < v.len() ==> #[trigger] v[k] < self.states@.len()
                &&& self.denote_all(v) == prod_succ(*self.petri, *self.nba, self.denote(i))
            }) by {
                if i != s {
                    assert(self.succ_log@[i] == e2.succ_log@[i]);
                }
            }
            assert(self.log_ok());
            self.lemma_count_cap();
        }
        Ok(result)
    }

    fn is_accepting(&self, s: usize) -> (r: bool) {
        self.nba.is_accepting(self.states[s].1)
    }
}

impl<'a, P: MemoryProbe> ProductNdfs<'a, P> {
    /// `self` has all numbered markings and states of `old` with the same numbers, and the
    /// same net and automaton.
    pub open spec fn keeps_ids(&self, old: Self) -> bool {
        &&& self.petri == old.petri
        &&& self.nba == old.nba
        &&& old.markings@.len() <= self.markings@.len()
        &&& forall|i: int| 0 <= i < old.markings@.len() ==> #[trigger] self.mviews()[i] == old.mviews()[i]
        &&& old.states@.len() <= self.states@.len()
        &&& forall|i: int| 0 <= i < old.states@.len() ==> #[trigger] self.states@[i] == old.states@[i]
    }

    /// `self` has all numbered markings and states of `old` with the same numbers, and the
    /// same net, automaton and limits.
    pub open spec fn unchanged_from(&self, old: Self) -> bool {
        &&& self.petri == old.petri
        &&& self.nba == old.nba
        &&& self.watch.config == old.watch.config
        &&& old.markings@.len() <= self.markings@.len()
        &&& forall|i: int| 0 <= i < old.markings@.len() ==> #[trigger] self.mviews()[i] == old.mviews()[i]
        &&& old.states@.len() <= self.states@.len()
        &&& forall|i: int| 0 <= i < old.states@.len() ==> #[trigger] self.states@[i] == old.states@[i]
        &&& forall|i: int| 0 <= i < old.states@.len() ==> #[trigger] self.succ_log@[i] == old.succ_log@[i]
    }

    proof fn lemma_count_cap(&self)
        requires
            self.inv(),
        ensures
            self.count() <= self.cap(),
    {
        let mv = self.mviews();
        assert(mv.no_duplicates()) by {
            assert forall|i: int, j: int| 0 <= i < mv.len() && 0 <= j < mv.len() && i != j implies mv[i] != mv[j] by {
                assert(marking_index_contents(self.marking_ids)[mv[i]] == i);
                assert(marking_index_contents(self.marking_ids)[mv[j]] == j);
            }
        }
        lemma_distinct_markings(mv, self.np());
        let st = self.states@;
        assert(st.no_duplicates()) by {
            assert forall|i: int, j: int| 0 <= i < st.len() && 0 <= j < st.len() && i != j implies st[i] != st[j] by {
                assert(pair_index_contents(self.state_ids)[st[i]] == i);
                assert(pair_index_contents(self.state_ids)[st[j]] == j);
            }
        }
        lemma_distinct_pairs(st, mv.len(), self.nq());
        let a = mv.len();
        let b = marking_space(self.np());
        let c = self.nq();
        assert(a * c <= b * c) by (nonlinear_arith)
            requires
                a <= b,
        ;
    }

    /// Two lists of numbered states with the same values are the same list.
    proof fn lemma_same_successors(&self, a: Seq<usize>, b: Seq<usize>, s: int)
        requires
            self.inv(),
            forall|k: int| 0 <= k < a.len() ==> #[trigger] a[k] < self.states@.len(),
            forall|k: int| 0 <= k < b.len() ==> #[trigger] b[k] < self.states@.len(),
            self.denote_all(a) == self.denote_all(b),
        ensures
            a == b,
    {
        assert(self.denote_all(a).len() == a.len());
        assert(self.denote_all(b).len() == b.len());
        assert forall|k: int| 0 <= k < a.len() implies a[k] == b[k] by {
            assert(self.denote_all(a)[k] == self.denote_all(b)[k]);
            assert(self.denote_all(a)[k] == self.denote(a[k] as int));
            assert(self.denote_all(b)[k] == self.denote(b[k] as int));
            let x = self.states@[a[k] as int];
            let y = self.states@[b[k] as int];
            assert(self.mviews()[x.0 as int] == self.mviews()[y.0 as int]);
            assert(marking_index_contents(self.marking_ids)[self.mviews()[x.0 as int]] == x.0);
            assert(marking_index_contents(self.marking_ids)[self.mviews()[y.0 as int]] == y.0);
            assert(x == y);
            assert(pair_index_contents(self.state_ids)[x] == a[k]);
            assert(pair_index_contents(self.state_ids)[y] == b[k]);
        }
        assert(a =~= b);
    }

    /// The number of a marking, numbering it when it is new.
    fn intern_marking(&mut self, t: Vec<u32>) -> (id: usize)
        requires
            old(self).inv(),
            t@.len() == old(self).np(),
        ensures
            final(self).inv(),
            final(self).unchanged_from(*old(self)),
            final(self).states@ == old(self).states@,
            id < final(self).markings@.len(),
            final(self).mviews()[id as int] == t@,
    {
        match marking_index_get(&self.marking_ids, &t) {
            Some(id) => id,
            None => {
                let id = self.markings.len();
                let ghost e0 = *self;
                self.markings.push(t.clone());
                marking_index_insert(&mut self.marking_ids, t, id);
                self.petri_successor_cache.push(None);
                self.label_cache.push(None);
                proof {
                    assert(self.mviews() =~= e0.mviews().push(t@));
                    assert forall|x: Seq<u32>| #[trigger] marking_index_contents(self.marking_ids).dom().contains(x) implies marking_index_contents(
                        self.marking_ids,
                    )[x] < self.markings@.len() && self.mviews()[marking_index_contents(self.marking_ids)[x] as int]
                        == x by {
                        if x != t@ {
                            assert(marking_index_contents(e0.marking_ids).dom().contains(x));
                        }
                    }
                    assert forall|i: int| 0 <= i < self.markings@.len() implies marking_index_contents(self.marking_ids).dom().contains(
                        #[trigger] self.mviews()[i],
                    ) && marking_index_contents(self.marking_ids)[self.mviews()[i]] == i by {
                        if i < e0.markings@.len() {
                            assert(e0.mviews()[i] != t@);
                        }
                    }
                    assert forall|i: int| 0 <= i < self.states@.len() implies #[trigger] self.denote(i) == e0.denote(i) by {}
                    assert(self.log_ok()) by {
                        assert forall|i: int| 0 <= i < self.states@.len() && #[trigger] self.succ_log@[i] is Some implies ({
                            let v = self.succ_log@[i]->Some_0;
                            self.denote_all(v) == prod_succ(*self.petri, *self.nba, self.denote(i))
                        }) by {
                            let v = self.succ_log@[i]->Some_0;
                            assert(self.denote_all(v) =~= e0.denote_all(v));
                        }
                    }
                }
                id
            },
        }
    }

    /// The number of a product state, numbering it when it is new.
    fn intern_state(&mut self, m: usize, q: usize) -> (id: usize)
        requires
            old(self).inv(),
            m < old(self).markings@.len(),
            q < old(self).nq(),
        ensures
            final(self).inv(),
            final(self).unchanged_from(*old(self)),
            final(self).markings@ == old(self).markings@,
            id < final(self).states@.len(),
            final(self).states@[id as int] == (m, q),
    {
        match pair_index_get(&self.state_ids, (m, q)) {
            Some(id) => id,
            None => {
                let id = self.states.len();
                let ghost e0 = *self;
                self.states.push((m, q));
                pair_index_insert(&mut self.state_ids, (m, q), id);
                self.succ_log = Ghost(self.succ_log@.push(None));
                proof {
                    assert(self.mviews() == e0.mviews());
                    assert(self.markings_ok());
                    assert forall|i: int| 0 <= i < self.states@.len() implies (#[trigger] self.states@[i]).0 < self.markings@.len()
                        && self.states@[i].1 < self.nq() by {
                        if i < e0.states@.len() {
                            assert(self.states@[i] == e0.states@[i]);
                        }
                    }
                    assert forall|i: int| 0 <= i < e0.states@.len() implies #[trigger] self.denote(i) == e0.denote(i) by {
                        assert(self.states@[i] == e0.states@[i]);
                    }
                    assert forall|p: (usize, usize)| #[trigger] pair_index_contents(self.state_ids).dom().contains(p) implies pair_index_contents(
                        self.state_ids,
                    )[p] < self.states@.len() && self.states@[pair_index_contents(self.state_ids)[p] as int]
                        == p by {
                        if p != (m, q) {
                            assert(pair_index_contents(e0.state_ids).dom().contains(p));
                        }
                    }
                    assert forall|i: int| 0 <= i < self.states@.len() implies pair_index_contents(self.state_ids).dom().contains(
                        #[trigger] self.states@[i],
                    ) && pair_index_contents(self.state_ids)[self.states@[i]] == i by {
                        if i < e0.states@.len() {
                            assert(e0.states@[i] != (m, q));
                        }
                    }
                    assert(self.log_ok()) by {
                        assert forall|i: int| 0 <= i < self.states@.len() && #[trigger] self.succ_log@[i] is Some implies ({
                            let v = self.succ_log@[i]->Some_0;
                            &&& forall|k: int| 0 <= k < v.len() ==> #[trigger] v[k] < self.states@.len()
                            &&& self.denote_all(v) == prod_succ(*self.petri, *self.nba, self.denote(i))
                        }) by {
                            assert(i < e0.states@.len());
                            let v = self.succ_log@[i]->Some_0;
                            assert(v == e0.succ_log@[i]->Some_0);
                            assert(self.denote_all(v) =~= e0.denote_all(v));
                        }
                    }
                }
                id
            },
        }
    }

    /// The markings one transition leads to from marking `m`, kept for later.
    fn petri_successors_cached(&mut self, m: usize) -> (r: Vec<Vec<u32>>)
        requires
            old(self).inv(),
            m < old(self).markings@.len(),
        ensures
            final(self).inv(),
            final(self).unchanged_from(*old(self)),
            final(self).markings@ == old(self).markings@,
            final(self).states@ == old(self).states@,
            r@.map_values(|v: Vec<u32>| v@) == next_markings(old(self).petri.arcs(), old(self).mviews()[m as int]),
    {
        match &self.petri_successor_cache[m] {
            Some(successors) => {
                return clone_markings(successors);
            },
            None => {},
        }
        let state = PetriState { tokens: self.markings[m].clone() };
        proof {
            assert(self.mviews()[m as int] == state.tokens@);
            assert forall|i: int, k: int|
                0 <= i < self.petri.arcs().len() && crate::petri_net::enabled(self.petri.arcs()[i].0, state.tokens@)
                    && 0 <= k < self.petri.arcs()[i].1.len() implies #[trigger] self.petri.arcs()[i].1[k]
                < state.tokens@.len() by {}
        }
        let successors = self.petri.next_states(&state);
        let tokens_list = markings_of(&successors);
        let kept = clone_markings(&tokens_list);
        let ghost e0 = *self;
        self.petri_successor_cache.set(m, Some(kept));
        proof {
            assert(self.mviews() == e0.mviews());
            assert forall|i: int|
                0 <= i < self.markings@.len() && #[trigger] self.petri_successor_cache@[i] is Some implies self.petri_successor_cache@[i]->Some_0@.map_values(
                    |v: Vec<u32>| v@,
                ) == next_markings(self.petri.arcs(), self.mviews()[i]) by {
                if i != m {
                    assert(self.petri_successor_cache@[i] == e0.petri_successor_cache@[i]);
                }
            }
            assert forall|i: int| 0 <= i < self.states@.len() implies #[trigger] self.denote(i) == e0.denote(i) by {}
            assert(self.log_ok()) by {
                assert forall|i: int| 0 <= i < self.states@.len() && #[trigger] self.succ_log@[i] is Some implies ({
                    let v = self.succ_log@[i]->Some_0;
                    self.denote_all(v) == prod_succ(*self.petri, *self.nba, self.denote(i))
                }) by {
                    let v = self.succ_log@[i]->Some_0;
                    assert(self.denote_all(v) =~= e0.denote_all(v));
                }
            }
        }
        tokens_list
    }

    /// The label of marking `m`, kept for later.
    fn compute_label_cached(&mut self, m: usize) -> (r: Vec<bool>)
        requires
            old(self).inv(),
            m < old(self).markings@.len(),
        ensures
            final(self).inv(),
            final(self).unchanged_from(*old(self)),
            final(self).markings@ == old(self).markings@,
            final(self).states@ == old(self).states@,
            r@ == label_of(*old(self).petri, *old(self).nba, old(self).mviews()[m as int]),
    {
        match &self.label_cache[m] {
            Some(label) => {
                return copy_bools(label);
            },
            None => {},
        }
        let label = compute_label(self.markings[m].as_slice(), self.petri, self.nba.closure.as_slice());
        let ghost e0 = *self;
        self.label_cache.set(m, Some(copy_bools(&label)));
        proof {
            assert(self.mviews() == e0.mviews());
            assert forall|i: int|
                0 <= i < self.markings@.len() && #[trigger] self.label_cache@[i] is Some implies self.label_cache@[i]->Some_0@
                    == label_of(*self.petri, *self.nba, self.mviews()[i]) by {
                if i != m {
                    assert(self.label_cache@[i] == e0.label_cache@[i]);
                }
            }
            assert forall|i: int| 0 <= i < self.states@.len() implies #[trigger] self.denote(i) == e0.denote(i) by {}
            assert(self.log_ok()) by {
                assert forall|i: int| 0 <= i < self.states@.len() && #[trigger] self.succ_log@[i] is Some implies ({
                    let v = self.succ_log@[i]->Some_0;
                    self.denote_all(v) == prod_succ(*self.petri, *self.nba, self.denote(i))
                }) by {
                    let v = self.succ_log@[i]->Some_0;
                    assert(self.denote_all(v) =~= e0.denote_all(v));
                }
            }
        }
        label
    }

    /// The numbers of the roots of the product search.
    fn initial_roots(&mut self) -> (r: Vec<usize>)
        requires
            old(self).inv(),
            old(self).markings@.len() == 0,
        ensures
            final(self).inv(),
            final(self).unchanged_from(*old(self)),
            forall|k: int| 0 <= k < r@.len() ==> #[trigger] r@[k] < final(self).states@.len(),
            final(self).denote_all(r@) == prod_roots(*old(self).petri, *old(self).nba),
    {
        let ghost e0 = *self;
        let initial_marking = self.petri.initial_state();
        let mid = self.intern_marking(initial_marking.tokens);
        let initial_label = self.compute_label_cached(mid);
        let initials = self.nba.initial_states();
        let ghost m0 = self.petri.initial_tokens@;
        let mut roots: Vec<usize> = Vec::new();
        let mut k: usize = 0;
        while k < initials.len()
            invariant
                self.inv(),
                self.unchanged_from(e0),
                mid < self.markings@.len(),
                self.mviews()[mid as int] == m0,
                m0 == self.petri.initial_tokens@,
                initial_label@ == label_of(*self.petri, *self.nba, m0),
                initials@ == self.nba.initial_states@,
                k <= initials@.len(),
                forall|j: int| 0 <= j < roots@.len() ==> #[trigger] roots@[j] < self.states@.len(),
                self.denote_all(roots@) == roots_from(
                    *self.petri,
                    *self.nba,
                    initials@.take(k as int),
                ),
            decreases initials.len() - k,
        {
            let qs = self.nba.next(initials[k], initial_label.as_slice());
            let ghost base = self.denote_all(roots@);
            let ghost before_k = roots@.len();
            let mut i: usize = 0;
            while i < qs.len()
                invariant
                    self.inv(),
                    self.unchanged_from(e0),
                    mid < self.markings@.len(),
                    self.mviews()[mid as int] == m0,
                    forall|j: int| 0 <= j < qs@.len() ==> #[trigger] qs@[j] < self.nq(),
                    i <= qs@.len(),
                    forall|j: int| 0 <= j < roots@.len() ==> #[trigger] roots@[j] < self.states@.len(),
                    roots@.len() == before_k + i,
                    self.denote_all(roots@) == base + pair_with(m0, qs@.take(i as int)),
                decreases qs.len() - i,
            {
                let ghost prev = self.denote_all(roots@);
                let ghost e1 = *self;
                let sid = self.intern_state(mid, qs[i]);
                roots.push(sid);
                proof {
                    assert forall|j: int| 0 <= j < prev.len() implies #[trigger] self.denote_all(roots@)[j] == prev[j] by {
                        assert(e1.denote(roots@[j] as int) == self.denote(roots@[j] as int));
                    }
                    assert(self.denote_all(roots@)[prev.len() as int] == self.denote(sid as int));
                    assert(self.denote(sid as int) == (m0, qs@[i as int]));
                    assert(pair_with(m0, qs@.take(i + 1)) =~= pair_with(m0, qs@.take(i as int)).push((m0, qs@[i as int])));
                    assert(self.denote_all(roots@) =~= base + pair_with(m0, qs@.take(i + 1)));
                }
                i = i + 1;
            }
            proof {
                assert(qs@.take(qs@.len() as int) =~= qs@);
                assert(initials@.take(k + 1).drop_last() =~= initials@.take(k as int));
                assert(self.denote_all(roots@) =~= roots_from(
                    *self.petri,
                    *self.nba,
                    initials@.take(k + 1),
                ));
            }
            k = k + 1;
        }
        proof {
            assert(initials@.take(initials@.len() as int) =~= initials@);
        }
        roots
    }
}

fn clone_markings(v: &Vec<Vec<u32>>) -> (r: Vec<Vec<u32>>)
    ensures
        r@.map_values(|x: Vec<u32>| x@) == v@.map_values(|x: Vec<u32>| x@),
{
    let mut r: Vec<Vec<u32>> = Vec::new();
    let mut i: usize = 0;
    while i < v.len()
        invariant
            i <= v@.len(),
            r@.len() == i,
            forall|j: int| 0 <= j < i ==> (#[trigger] r@[j])@ == v@[j]@,
        decreases v.len() - i,
    {
        r.push(v[i].clone());
        i = i + 1;
    }
    assert(r@.map_values(|x: Vec<u32>| x@) =~= v@.map_values(|x: Vec<u32>| x@));
    r
}

fn copy_bools(v: &Vec<bool>) -> (r: Vec<bool>)
    ensures
        r@ == v@,
{
    let mut r: Vec<bool> = Vec::new();
    let mut i: usize = 0;
    while i < v.len()
        invariant
            i <= v@.len(),
            r@ == v@.take(i as int),
        decreases v.len() - i,
    {
        r.push(v[i]);
        assert(r@ =~= v@.take(i + 1));
        i = i + 1;
    }
    assert(v@.take(v@.len() as int) =~= v@);
    r
}

fn markings_of(v: &Vec<PetriState>) -> (r: Vec<Vec<u32>>)
    ensures
        r@.map_values(|x: Vec<u32>| x@) == v@.map_values(|s: PetriState| s.tokens@),
{
    let mut r: Vec<Vec<u32>> = Vec::new();
    let mut i: usize = 0;
    while i < v.len()
        invariant
            i <= v@.len(),
            r@.len() == i,
            forall|j: int| 0 <= j < i ==> (#[trigger] r@[j])@ == v@[j].tokens@,
        decreases v.len() - i,
    {
        r.push(v[i].tokens.clone());
        i = i + 1;
    }
    assert(r@.map_values(|x: Vec<u32>| x@) =~= v@.map_values(|s: PetriState| s.tokens@));
    r
}

/// What a product search answers: whether the property holds, and a counterexample when it
/// does not (the blue and the red stack).
pub type CheckOutcome = (bool, Option<Vec<CombinedState>>, Option<Vec<CombinedState>>);

/// `n` is the NBA that `NBA::new` builds for `f`.
pub open spec fn nba_for(n: NBA, f: Formula) -> bool {
    &&& n.gnba.built_from(f)
    &&& n.degeneralized()
    &&& n.wf_full()
}

/// The values of a list of product states.
pub open spec fn combined_views(v: Seq<CombinedState>) -> Seq<(Seq<u32>, usize)> {
    v.map_values(|c: CombinedState| combined_view(c))
}

/// The answer of a product search on `net` and `nba`.
pub open spec fn product_answer(net: PetriNet, nba: NBA, o: CheckOutcome) -> bool {
    &&& o.0 ==> o.1 is None && o.2 is None
    &&& o.0 ==> forall|st: Seq<(Seq<u32>, usize)>, st2: Seq<(Seq<u32>, usize)>|
        !#[trigger] prod_lasso(net, nba, st, st2)
    &&& !o.0 ==> (o.1 matches Some(st) && o.2 matches Some(st2) && prod_lasso(
        net,
        nba,
        combined_views(st@),
        combined_views(st2@),
    ))
}

impl<'a, P: MemoryProbe> ProductNdfs<'a, P> {
    /// The product states numbered in `ids`.
    fn states_of(&self, ids: &Vec<usize>) -> (r: Vec<CombinedState>)
        requires
            self.inv(),
            forall|k: int| 0 <= k < ids@.len() ==> #[trigger] ids@[k] < self.states@.len(),
        ensures
            combined_views(r@) == self.denote_all(ids@),
    {
        let mut r: Vec<CombinedState> = Vec::new();
        let mut k: usize = 0;
        while k < ids.len()
            invariant
                self.inv(),
                forall|j: int| 0 <= j < ids@.len() ==> #[trigger] ids@[j] < self.states@.len(),
                k <= ids@.len(),
                combined_views(r@) == self.denote_all(ids@.take(k as int)),
            decreases ids.len() - k,
        {
            let pair = self.states[ids[k]];
            assert(pair.0 < self.markings@.len());
            let c = CombinedState {
                petri_state: PetriState { tokens: self.markings[pair.0].clone() },
                nba_state: pair.1,
            };
            assert(c.petri_state.tokens@ == self.mviews()[pair.0 as int]);
            assert(self.denote(ids@[k as int] as int) == combined_view(c));
            let ghost before = combined_views(r@);
            r.push(c);
            assert(combined_views(r@) =~= before.push(combined_view(c)));
            assert(ids@.take(k + 1).drop_last() =~= ids@.take(k as int));
            assert(combined_views(r@) =~= self.denote_all(ids@.take(k + 1)));
            k = k + 1;
        }
        assert(ids@.take(ids@.len() as int) =~= ids@);
        r
    }

    proof fn lemma_lasso_values(&self, roots: Seq<usize>, st: Seq<usize>, st2: Seq<usize>)
        requires
            self.inv(),
            self.denote_all(roots) == prod_roots(*self.petri, *self.nba),
            lasso(*self, roots, st, st2),
        ensures
            prod_lasso(*self.petri, *self.nba, self.denote_all(st), self.denote_all(st2)),
    {
        let net = *self.petri;
        let nba = *self.nba;
        assert forall|s: int, t: usize| 0 <= s < self.states@.len() && #[trigger] edge(*self, s, t)
            implies prod_succ(net, nba, self.denote(s)).contains(self.denote(t as int)) by {
            let v = self.succ_log@[s]->Some_0;
            let k = choose|k: int| 0 <= k < v.len() && v[k] == t;
            assert(self.denote_all(v)[k] == self.denote(t as int));
        }
        assert forall|i: int| 0 <= i < self.denote_all(st).len() - 1 implies prod_succ(net, nba, self.denote_all(st)[i]).contains(#[trigger] self.denote_all(st)[i + 1]) by {
            assert(edge(*self, st[i] as int, st[i + 1]));
        }
        assert forall|i: int| 0 <= i < self.denote_all(st2).len() - 1 implies prod_succ(net, nba, self.denote_all(st2)[i]).contains(#[trigger] self.denote_all(st2)[i + 1]) by {
            assert(edge(*self, st2[i] as int, st2[i + 1]));
        }
        let r0 = choose|k: int| 0 <= k < roots.len() && roots[k] == st[0];
        assert(self.denote_all(roots)[r0] == self.denote(st[0] as int));
        let c = choose|c: usize| st.contains(c) && #[trigger] edge(*self, st2.last() as int, c);
        let kc = choose|k: int| 0 <= k < st.len() && st[k] == c;
        assert(self.denote_all(st)[kc] == self.denote(c as int));
        assert(prod_succ(net, nba, self.denote_all(st2).last()).contains(self.denote_all(st)[kc]));
        assert(self.denote_all(st).contains(self.denote_all(st)[kc]));
    }
}

impl<'a, P: MemoryProbe> ProductNdfs<'a, P> {
    /// Distinct numbers stand for distinct product states.
    proof fn lemma_denote_injective(&self, i: int, j: int)
        requires
            self.inv(),
            0 <= i < self.states@.len(),
            0 <= j < self.states@.len(),
            self.denote(i) == self.denote(j),
        ensures
            i == j,
    {
        let a = self.states@[i];
        let b = self.states@[j];
        assert(a.0 < self.markings@.len() && b.0 < self.markings@.len());
        assert(marking_index_contents(self.marking_ids)[self.mviews()[a.0 as int]] == a.0);
        assert(marking_index_contents(self.marking_ids)[self.mviews()[b.0 as int]] == b.0);
        assert(a == b);
        assert(pair_index_contents(self.state_ids)[a] == i);
        assert(pair_index_contents(self.state_ids)[b] == j);
    }

    /// Numbers for the states of a product walk that starts at a state reached from a root,
    /// where every such state has its successors logged.
    proof fn ids_for(&self, roots: Seq<usize>, pre: Seq<usize>, vs: Seq<(Seq<u32>, usize)>) -> (ids: Seq<usize>)
        requires
            self.inv(),
            forall|p: Seq<usize>|
                #[trigger] walk(*self, p) && p.len() >= 1 && roots.contains(p[0]) ==> explored(*self, p.last() as int),
            walk(*self, pre),
            pre.len() >= 1,
            roots.contains(pre[0]),
            vs.len() >= 1,
            prod_walk(*self.petri, *self.nba, vs),
            vs[0] == self.denote(pre.last() as int),
        ensures
            ids.len() == vs.len(),
            ids[0] == pre.last(),
            walk(*self, ids),
            walk(*self, pre + ids.drop_first()),
            (pre + ids.drop_first())[0] == pre[0],
            (pre + ids.drop_first()).len() >= 1,
            (pre + ids.drop_first()).last() == ids.last(),
            forall|i: int| 0 <= i < vs.len() ==> self.denote(#[trigger] ids[i] as int) == vs[i],
        decreases vs.len(),
    {
        if vs.len() == 1 {
            let ids = seq![pre.last()];
            assert(pre[pre.len() - 1] < self.count());
            assert(walk(*self, ids));
            assert(ids.drop_first() =~= seq![]);
            assert(pre + ids.drop_first() =~= pre);
            ids
        } else {
            let vs0 = vs.drop_last();
            assert forall|i: int| 0 <= i < vs0.len() - 1 implies prod_succ(*self.petri, *self.nba, vs0[i]).contains(#[trigger] vs0[i + 1]) by {
                assert(prod_succ(*self.petri, *self.nba, vs[i]).contains(vs[i + 1]));
            }
            let ids0 = self.ids_for(roots, pre, vs0);
            let w = pre + ids0.drop_first();
            let l = ids0.last();
            assert(explored(*self, l as int));
            let v = self.succ_log@[l as int]->Some_0;
            assert(self.succ_of(l as int) == Some(v));
            let n = vs.len() - 2;
            assert(vs0[n] == vs[n]);
            assert(self.denote(l as int) == vs[n]);
            assert(prod_succ(*self.petri, *self.nba, vs[n]).contains(vs[n + 1]));
            assert(self.denote_all(v) == prod_succ(*self.petri, *self.nba, self.denote(l as int)));
            let k = choose|k: int| 0 <= k < self.denote_all(v).len() && self.denote_all(v)[k] == vs[n + 1];
            let t = v[k];
            assert(self.denote(t as int) == vs[n + 1]);
            assert(edge(*self, l as int, t));
            let ids = ids0.push(t);
            assert(walk(*self, ids)) by {
                assert forall|i: int| 0 <= i < ids.len() implies #[trigger] ids[i] < self.count() by {
                    if i < ids0.len() {
                        assert(ids[i] == ids0[i]);
                    }
                }
                assert forall|i: int| 0 <= i < ids.len() - 1 implies #[trigger] edge(*self, ids[i] as int, ids[i + 1]) by {
                    if i < ids0.len() - 1 {
                        assert(ids[i] == ids0[i] && ids[i + 1] == ids0[i + 1]);
                        assert(edge(*self, ids0[i] as int, ids0[i + 1]));
                    } else {
                        assert(ids[i] == l);
                    }
                }
            }
            let w2 = pre + ids.drop_first();
            assert(w2 =~= w.push(t)) by {
                assert(ids.drop_first() =~= ids0.drop_first().push(t));
            }
            assert(walk(*self, w2)) by {
                assert forall|i: int| 0 <= i < w2.len() implies #[trigger] w2[i] < self.count() by {
                    if i < w.len() {
                        assert(w2[i] == w[i]);
                    }
                }
                assert forall|i: int| 0 <= i < w2.len() - 1 implies #[trigger] edge(*self, w2[i] as int, w2[i + 1]) by {
                    if i < w.len() - 1 {
                        assert(w2[i] == w[i] && w2[i + 1] == w[i + 1]);
                        assert(edge(*self, w[i] as int, w[i + 1]));
                    } else {
                        assert(w2[i] == w.last());
                    }
                }
            }
            assert forall|i: int| 0 <= i < vs.len() implies self.denote(#[trigger] ids[i] as int) == vs[i] by {
                if i < vs0.len() {
                    assert(ids[i] == ids0[i]);
                    assert(vs[i] == vs0[i]);
                }
            }
            ids
        }
    }

    /// A counterexample over product states gives one over their numbers.
    proof fn lemma_values_lasso(&self, roots: Seq<usize>, st: Seq<(Seq<u32>, usize)>, st2: Seq<(Seq<u32>, usize)>)
        requires
            self.inv(),
            self.denote_all(roots) == prod_roots(*self.petri, *self.nba),
            forall|k: int| 0 <= k < roots.len() ==> #[trigger] roots[k] < self.count(),
            forall|p: Seq<usize>|
                #[trigger] walk(*self, p) && p.len() >= 1 && roots.contains(p[0]) ==> explored(*self, p.last() as int),
            prod_lasso(*self.petri, *self.nba, st, st2),
        ensures
            exists|a: Seq<usize>, b: Seq<usize>| #[trigger] lasso(*self, roots, a, b),
    {
        let net = *self.petri;
        let nba = *self.nba;
        let k0 = choose|k: int| 0 <= k < prod_roots(net, nba).len() && prod_roots(net, nba)[k] == st[0];
        let r0 = roots[k0];
        assert(self.denote_all(roots)[k0] == self.denote(r0 as int));
        assert(roots.contains(r0));
        let pre = seq![r0];
        assert(walk(*self, pre));
        let a = self.ids_for(roots, pre, st);
        let wa = pre + a.drop_first();
        let b = self.ids_for(roots, wa, st2);
        let wb = wa + b.drop_first();
        let l = b.last();
        assert(explored(*self, l as int));
        let v = self.succ_log@[l as int]->Some_0;
        let c = choose|c: (Seq<u32>, usize)| st.contains(c) && #[trigger] prod_succ(net, nba, st2.last()).contains(c);
        let kc = choose|k: int| 0 <= k < st.len() && st[k] == c;
        assert(self.denote(l as int) == st2[st2.len() - 1]);
        assert(self.denote_all(v) == prod_succ(net, nba, self.denote(l as int)));
        let k = choose|k: int| 0 <= k < self.denote_all(v).len() && self.denote_all(v)[k] == c;
        assert(self.denote(v[k] as int) == c);
        assert(self.denote(a[kc] as int) == st[kc]);
        assert(v[k] < self.count());
        assert(a[kc] < self.count());
        self.lemma_denote_injective(v[k] as int, a[kc] as int);
        assert(edge(*self, l as int, a[kc]));
        assert(a.contains(a[kc]));
        assert(self.denote(a[a.len() - 1] as int) == st[st.len() - 1]);
        assert(self.acc(a.last() as int));
        assert(b[0] == a.last());
        assert(lasso(*self, roots, a, b));
    }
}

/// A product step follows an NBA transition.
proof fn lemma_prod_from_step(net: PetriNet, nba: NBA, ms: Seq<Seq<u32>>, q: int, x: (Seq<u32>, usize))
    requires
        prod_from(net, nba, ms, q).contains(x),
    ensures
        0 <= q < nba.states@.len(),
        nba.graph_view()[q].contains(x.1),
    decreases ms.len(),
{
    let a = prod_from(net, nba, ms.drop_last(), q);
    let b = pair_with(ms.last(), nba_next_spec(nba, q, label_of(net, nba, ms.last())));
    assert(prod_from(net, nba, ms, q) == a + b);
    let k = choose|k: int| 0 <= k < (a + b).len() && (a + b)[k] == x;
    if k < a.len() {
        assert(a[k] == x);
        lemma_prod_from_step(net, nba, ms.drop_last(), q, x);
    } else {
        assert(b[k - a.len()] == x);
        let qs = nba_next_spec(nba, q, label_of(net, nba, ms.last()));
        assert(qs[k - a.len()] == x.1);
        assert(qs.len() > 0);
    }
}

/// A root of the product follows an NBA transition from an initial state.
proof fn lemma_roots_step(net: PetriNet, nba: NBA, qs: Seq<usize>, x: (Seq<u32>, usize))
    requires
        roots_from(net, nba, qs).contains(x),
    ensures
        exists|j: int| 0 <= j < qs.len() && 0 <= qs[j] < nba.states@.len() && #[trigger] nba.graph_view()[qs[j] as int].contains(x.1),
    decreases qs.len(),
{
    let m0 = net.initial_tokens@;
    let a = roots_from(net, nba, qs.drop_last());
    let b = pair_with(m0, nba_next_spec(nba, qs.last() as int, label_of(net, nba, m0)));
    assert(roots_from(net, nba, qs) == a + b);
    let k = choose|k: int| 0 <= k < (a + b).len() && (a + b)[k] == x;
    if k < a.len() {
        assert(a[k] == x);
        lemma_roots_step(net, nba, qs.drop_last(), x);
        let j = choose|j: int| 0 <= j < qs.drop_last().len() && 0 <= qs.drop_last()[j] < nba.states@.len() && #[trigger] nba.graph_view()[qs.drop_last()[j] as int].contains(x.1);
        assert(qs.drop_last()[j] == qs[j]);
    } else {
        assert(b[k - a.len()] == x);
        let ns = nba_next_spec(nba, qs.last() as int, label_of(net, nba, m0));
        assert(ns[k - a.len()] == x.1);
        assert(ns.len() > 0);
        assert(nba.graph_view()[qs[qs.len() - 1] as int].contains(x.1));
    }
}

/// A counterexample in the product gives a run of the NBA that visits an accepting state
/// forever.
proof fn lemma_project_lasso(net: PetriNet, nba: NBA, st: Seq<(Seq<u32>, usize)>, st2: Seq<(Seq<u32>, usize)>)
    requires
        crate::emptyness::automaton_ok(nba),
        nba.nba_wf(),
        prod_lasso(net, nba, st, st2),
    ensures
        exists|a: Seq<usize>, b: Seq<usize>| #[trigger] aut_lasso(nba, a, b),
{
    let g = nba.graph_of();
    assert(g == nba.graph_view());
    lemma_roots_step(net, nba, nba.initial_states@, st[0]);
    let j = choose|j: int| 0 <= j < nba.initial_states@.len() && 0 <= nba.initial_states@[j] < nba.states@.len() && #[trigger] nba.graph_view()[nba.initial_states@[j] as int].contains(st[0].1);
    let q0 = nba.initial_states@[j];
    let pr = st.map_values(|x: (Seq<u32>, usize)| x.1);
    let pr2 = st2.map_values(|x: (Seq<u32>, usize)| x.1);
    let a = seq![q0] + pr;
    assert(nba.init_view()[j] == q0);
    assert(q0 < g.len());
    assert(g.len() == nba.states@.len());
    assert forall|i: int| 0 <= i < a.len() - 1 implies g[a[i] as int].contains(#[trigger] a[i + 1]) by {
        if i == 0 {
            assert(a[1] == st[0].1);
        } else {
            let m = i - 1;
            assert(a[i] == st[m].1);
            assert(a[i + 1] == st[m + 1].1);
            assert(prod_succ(net, nba, st[m]).contains(st[m + 1]));
            lemma_prod_from_step(net, nba, next_markings(net.arcs(), st[m].0), st[m].1 as int, st[m + 1]);
        }
    }
    assert forall|i: int| 0 <= i < a.len() implies #[trigger] a[i] < g.len() by {
        if i > 0 {
            let m = i - 1;
            assert(g[a[m] as int].contains(a[m + 1]));
            assert(a[m] < g.len()) by {
                if m > 0 {
                    let n = m - 1;
                    assert(a[m] == st[n].1);
                    assert(prod_succ(net, nba, st[n]).contains(st[n + 1]));
                    lemma_prod_from_step(net, nba, next_markings(net.arcs(), st[n].0), st[n].1 as int, st[n + 1]);
                }
            }
            let kk = choose|kk: int| 0 <= kk < g[a[m] as int].len() && g[a[m] as int][kk] == a[m + 1];
            assert(g[a[m] as int][kk] < g.len());
        }
    }
    assert(graph_walk(g, a));
    assert forall|i: int| 0 <= i < pr2.len() - 1 implies g[pr2[i] as int].contains(#[trigger] pr2[i + 1]) by {
        assert(prod_succ(net, nba, st2[i]).contains(st2[i + 1]));
        lemma_prod_from_step(net, nba, next_markings(net.arcs(), st2[i].0), st2[i].1 as int, st2[i + 1]);
    }
    assert(pr2[0] == a.last());
    assert forall|i: int| 0 <= i < pr2.len() implies #[trigger] pr2[i] < g.len() by {
        if i == 0 {
            assert(a[a.len() - 1] < g.len());
        } else {
            let m = i - 1;
            assert(prod_succ(net, nba, st2[m]).contains(st2[m + 1]));
            lemma_prod_from_step(net, nba, next_markings(net.arcs(), st2[m].0), st2[m].1 as int, st2[m + 1]);
            assert(g[pr2[m] as int].contains(pr2[m + 1]));
            let kk = choose|kk: int| 0 <= kk < g[pr2[m] as int].len() && g[pr2[m] as int][kk] == pr2[m + 1];
            assert(g[pr2[m] as int][kk] < g.len());
        }
    }
    assert(graph_walk(g, pr2));
    let c = choose|c: (Seq<u32>, usize)| st.contains(c) && #[trigger] prod_succ(net, nba, st2.last()).contains(c);
    lemma_prod_from_step(net, nba, next_markings(net.arcs(), st2.last().0), st2.last().1 as int, c);
    let kc = choose|k: int| 0 <= k < st.len() && st[k] == c;
    assert(a[kc + 1] == c.1);
    assert(pr2[pr2.len() - 1] == st2[st2.len() - 1].1);
    assert(g[pr2.last() as int].contains(c.1));
    assert(a.contains(c.1));
    assert(nba.accepts(a.last() as int));
    assert(aut_lasso(nba, a, pr2));
}

/// The answer of the product search: `true` with a counterexample, `false` without.
pub open spec fn found_answer(net: PetriNet, nba: NBA, o: CheckOutcome) -> bool {
    &&& o.0 ==> (o.1 matches Some(st) && o.2 matches Some(st2) && prod_lasso(
        net,
        nba,
        combined_views(st@),
        combined_views(st2@),
    ))
    &&& !o.0 ==> o.1 is None && o.2 is None
    &&& !o.0 ==> forall|st: Seq<(Seq<u32>, usize)>, st2: Seq<(Seq<u32>, usize)>|
        !#[trigger] prod_lasso(net, nba, st, st2)
}

/// The answer of a model check: the one the product search with the NBA of the negated
/// property gives.
pub open spec fn checked_answer(net: PetriNet, negated: Formula, o: CheckOutcome) -> bool {
    exists|n: NBA| #[trigger] nba_for(n, negated) && product_answer(net, n, o)
}

/// The product search of a net and an NBA from the roots.
fn ndfs_model_check<P: MemoryProbe>(
    petri: &PetriNet,
    nba: &NBA,
    config: &ModelCheckConfig,
    probe: P,
) -> (r: Result<CheckOutcome, ModelCheckError>)
    requires
        net_ok(*petri),
        nba.wf_full(),
    ensures
        r matches Ok(o) ==> found_answer(*petri, *nba, o),
        r matches Err(e) ==> error_allowed(*config, e),
{
    let mut automaton = ProductNdfs {
        petri,
        nba,
        markings: Vec::new(),
        marking_ids: marking_index_new(),
        petri_successor_cache: Vec::new(),
        label_cache: Vec::new(),
        states: Vec::new(),
        state_ids: pair_index_new(),
        succ_log: Ghost(Seq::empty()),
        watch: Watch::new(config, probe),
    };
    let roots = automaton.initial_roots();
    proof {
        automaton.lemma_count_cap();
    }
    let ghost a0 = automaton;
    let outcome = run_ndfs(&mut automaton, roots);
    match outcome {
        Err(e) => Err(e),
        Ok(o) => {
            let (found, stack, stack2) = o;
            if found {
                let st = stack.unwrap();
                let st2 = stack2.unwrap();
                proof {
                    assert(automaton.keeps_ids(a0));
                    assert(automaton.denote_all(roots@) =~= a0.denote_all(roots@)) by {
                        assert forall|k: int| 0 <= k < roots@.len() implies #[trigger] automaton.denote(roots@[k] as int) == a0.denote(roots@[k] as int) by {
                            assert(a0.states@[roots@[k] as int].0 < a0.markings@.len());
                        }
                    }
                    automaton.lemma_lasso_values(roots@, st@, st2@);
                }
                let cs = automaton.states_of(&st);
                let cs2 = automaton.states_of(&st2);
                Ok((true, Some(cs), Some(cs2)))
            } else {
                proof {
                    assert(automaton.keeps_ids(a0));
                    assert(automaton.denote_all(roots@) =~= a0.denote_all(roots@)) by {
                        assert forall|k: int| 0 <= k < roots@.len() implies #[trigger] automaton.denote(roots@[k] as int) == a0.denote(roots@[k] as int) by {
                            assert(a0.states@[roots@[k] as int].0 < a0.markings@.len());
                        }
                    }
                    assert forall|st: Seq<(Seq<u32>, usize)>, st2: Seq<(Seq<u32>, usize)>| !#[trigger] prod_lasso(*petri, *nba, st, st2) by {
                        if prod_lasso(*petri, *nba, st, st2) {
                            automaton.lemma_values_lasso(roots@, st, st2);
                        }
                    }
                }
                Ok((false, None, None))
            }
        },
    }
}

/// Checks an LTL property on a Petri net: the NBA of its negation is first checked for
/// emptiness; if it accepts some run, the product with the net is searched for a run into an
/// accepting cycle. `(true, None, None)` when the property holds; `(false, Some(stack),
/// Some(stack2))` with a counterexample when it does not. Where the automaton formula is exact
/// (see `language_exact`) and every label atom has a value on every marking, a `false`
/// answer comes with an infinite firing sequence on which the property fails, and, where the
/// reachable markings are finitely many, a `true` answer means that the property holds on
/// every infinite firing sequence.
pub fn model_check<P: MemoryProbe + Copy>(
    petri_net: &PetriNet,
    ltl: &LTL,
    config: &ModelCheckConfig,
    probe: P,
) -> (r: Result<CheckOutcome, ModelCheckError>)
    requires
        nba_size_ok(Formula::Not(Box::new(ltl@))),
        net_ok(*petri_net),
    ensures
        r matches Ok(o) ==> checked_answer(*petri_net, Formula::Not(Box::new(ltl@)), o),
        language_exact(ltl@) && atoms_evaluate(
            *petri_net,
            spec_closure(spec_automaton_formula(Formula::Not(Box::new(ltl@)))),
        ) ==> (r matches Ok(o) ==> (!o.0 ==> exists|ms: spec_fn(nat) -> Seq<u32>|
            firing_sequence(*petri_net, ms) && !#[trigger] holds(ltl@, marking_trace(*petri_net, ms))(
                0,
            ))),
        forall|s: Seq<Seq<u32>>|
            language_exact(ltl@) && atoms_evaluate(
                *petri_net,
                spec_closure(spec_automaton_formula(Formula::Not(Box::new(ltl@)))),
            ) && #[trigger] covers_reachable(*petri_net, s) ==> (r matches Ok(o) ==> (o.0 ==> forall|
                ms: spec_fn(nat) -> Seq<u32>,
            |
                firing_sequence(*petri_net, ms) ==> #[trigger] holds(ltl@, marking_trace(*petri_net, ms))(
                    0,
                ))),
        r matches Err(e) ==> error_allowed(*config, e),
{
    let negated_ltl = ltl.negate();
    let nba = NBA::new(&negated_ltl);
    proof {
        assert(crate::emptyness::automaton_ok(nba));
    }
    let is_empty = match check_emptyness_generic(&nba, config, probe) {
        Err(e) => { return Err(e); },
        Ok(o) => o,
    };
    if is_empty.0 {
        let r: CheckOutcome = (true, None, None);
        proof {
            assert forall|st: Seq<(Seq<u32>, usize)>, st2: Seq<(Seq<u32>, usize)>| !#[trigger] prod_lasso(*petri_net, nba, st, st2) by {
                if prod_lasso(*petri_net, nba, st, st2) {
                    lemma_project_lasso(*petri_net, nba, st, st2);
                }
            }
        }
        assert(nba_for(nba, Formula::Not(Box::new(ltl@))));
        assert(product_answer(*petri_net, nba, r));
        assert(checked_answer(*petri_net, Formula::Not(Box::new(ltl@)), r));
        proof {
            assert forall|s: Seq<Seq<u32>>|
                language_exact(ltl@) && atoms_evaluate(
                    *petri_net,
                    spec_closure(spec_automaton_formula(Formula::Not(Box::new(ltl@)))),
                ) && #[trigger] covers_reachable(*petri_net, s) implies (forall|ms: spec_fn(nat) -> Seq<u32>|
                firing_sequence(*petri_net, ms) ==> #[trigger] holds(ltl@, marking_trace(*petri_net, ms))(0)) by {
                assert(fviews(nba.closure@) == nba.gnba.closure_view());
                lemma_holds_everywhere(*petri_net, nba, ltl@, s);
            }
        }
        return Ok(r);
    }
    let has_counterexample = match ndfs_model_check(petri_net, &nba, config, probe) {
        Err(e) => { return Err(e); },
        Ok(o) => o,
    };
    let (found, stack, stack2) = has_counterexample;
    let r: CheckOutcome = (!found, stack, stack2);
    assert(nba_for(nba, Formula::Not(Box::new(ltl@))));
    assert(product_answer(*petri_net, nba, r));
    proof {
        let neg = Formula::Not(Box::new(ltl@));
        if found && language_exact(ltl@) && atoms_evaluate(*petri_net, spec_closure(spec_automaton_formula(neg))) {
            assert(language_exact(neg));
            assert(fviews(nba.closure@) == nba.gnba.closure_view());
            let cs = combined_views(stack->0@);
            let cs2 = combined_views(stack2->0@);
            lemma_counterexample(*petri_net, nba, neg, cs, cs2);
            let ms = choose|ms: spec_fn(nat) -> Seq<u32>| firing_sequence(*petri_net, ms) && #[trigger] holds(
                neg,
                marking_trace(*petri_net, ms),
            )(0);
            assert(!holds(ltl@, marking_trace(*petri_net, ms))(0));
        }
        if !found {
            assert forall|s: Seq<Seq<u32>>|
                language_exact(ltl@) && atoms_evaluate(
                    *petri_net,
                    spec_closure(spec_automaton_formula(neg)),
                ) && #[trigger] covers_reachable(*petri_net, s) implies (forall|ms: spec_fn(nat) -> Seq<u32>|
                firing_sequence(*petri_net, ms) ==> #[trigger] holds(ltl@, marking_trace(*petri_net, ms))(0)) by {
                assert(fviews(nba.closure@) == nba.gnba.closure_view());
                lemma_holds_everywhere(*petri_net, nba, ltl@, s);
            }
        }
    }
    assert(checked_answer(*petri_net, Formula::Not(Box::new(ltl@)), r));
    Ok(r)
}

} // verus!
