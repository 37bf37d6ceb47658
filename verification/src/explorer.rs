use vstd::prelude::*;

use std::collections::HashMap;

use crate::counting::{lemma_distinct_markings, marking_space};
use crate::petri_net::{enabled, lemma_no_successor, next_markings, PetriNet, PetriState};
use crate::product::net_ok;

verus! {

/// How many markings are reachable and how many of them enable no transition.
pub struct ReachabilityStats {
    pub reachable_count: usize,
    pub deadlock_count: usize,
}

/// A map from markings to their numbers.
pub type StateIndex = HashMap<Vec<u32>, usize>;

/// What a map from markings to numbers holds.
pub uninterp spec fn state_index_contents(m: StateIndex) -> Map<Seq<u32>, usize>;

/// `HashMap::new`: a map that holds nothing.
#[verifier::external_body]
fn state_index_new() -> (r: StateIndex)
    ensures
        state_index_contents(r) =~= Map::empty(),
{
    HashMap::new()
}

/// `HashMap::insert`: afterwards the marking maps to the value and every other marking to
/// what it mapped to before.
#[verifier::external_body]
fn state_index_insert(m: &mut StateIndex, key: Vec<u32>, value: usize)
    ensures
        state_index_contents(*final(m)) == state_index_contents(*old(m)).insert(key@, value),
{
    m.insert(key, value);
}

/// `HashMap::get`: the value the marking maps to, if any.
#[verifier::external_body]
fn state_index_get(m: &StateIndex, key: &Vec<u32>) -> (r: Option<usize>)
    ensures
        r == (if state_index_contents(*m).dom().contains(key@) {
            Some(state_index_contents(*m)[key@])
        } else {
            None
        }),
{
    m.get(key).copied()
}

/// `p` is a firing sequence from the initial marking.
pub open spec fn firing_path(net: PetriNet, p: Seq<Seq<u32>>) -> bool {
    &&& p.len() >= 1
    &&& p[0] == net.initial_tokens@
    &&& forall|i: int| 0 <= i < p.len() - 1 ==> next_markings(net.arcs(), p[i]).contains(#[trigger] p[i + 1])
}

/// `t` is reachable from the initial marking.
pub open spec fn reachable_marking(net: PetriNet, t: Seq<u32>) -> bool {
    exists|p: Seq<Seq<u32>>| #[trigger] firing_path(net, p) && p.last() == t
}

/// How many of the markings enable no transition.
pub open spec fn deadlocks(net: PetriNet, s: Seq<Seq<u32>>) -> nat
    decreases s.len(),
{
    if s.len() == 0 {
        0
    } else {
        deadlocks(net, s.drop_last()) + if next_markings(net.arcs(), s.last()).len() == 0 {
            1nat
        } else {
            0nat
        }
    }
}

/// `s` lists the reachable markings, each once, and the counts are its length and its deadlocks.
pub open spec fn stats_of(net: PetriNet, s: Seq<Seq<u32>>, r: ReachabilityStats) -> bool {
    &&& s.no_duplicates()
    &&& forall|t: Seq<u32>| s.contains(t) <==> reachable_marking(net, t)
    &&& r.reachable_count == s.len()
    &&& r.deadlock_count == deadlocks(net, s)
}

/// The numbered markings and the map that finds their numbers.
pub struct StateInterner {
    pub by_state: StateIndex,
    pub states: Vec<PetriState>,
}

impl StateInterner {
    pub open spec fn views(&self) -> Seq<Seq<u32>> {
        self.states@.map_values(|s: PetriState| s.tokens@)
    }

    /// The map finds each marking by its number, and holds nothing else.
    pub open spec fn wf(&self) -> bool {
        &&& forall|i: int|
            0 <= i < self.states@.len() ==> state_index_contents(self.by_state).dom().contains(
                #[trigger] self.views()[i],
            ) && state_index_contents(self.by_state)[self.views()[i]] == i
        &&& forall|x: Seq<u32>|
            #[trigger] state_index_contents(self.by_state).dom().contains(x) ==> state_index_contents(
                self.by_state,
            )[x] < self.states@.len() && self.views()[state_index_contents(self.by_state)[x] as int]
                == x
    }

    pub fn new() -> (r: Self)
        ensures
            r.wf(),
            r.states@.len() == 0,
    {
        StateInterner { by_state: state_index_new(), states: Vec::new() }
    }

    /// The number of a marking and whether it is new, numbering it when it is.
    pub fn intern(&mut self, state: PetriState) -> (r: (usize, bool))
        requires
            old(self).wf(),
        ensures
            final(self).wf(),
            r.0 < final(self).states@.len(),
            final(self).views()[r.0 as int] == state.tokens@,
            r.1 ==> final(self).views() == old(self).views().push(state.tokens@) && !old(self).views().contains(state.tokens@),
            !r.1 ==> final(self).views() == old(self).views(),
    {
        match state_index_get(&self.by_state, &state.tokens) {
            Some(id) => (id, false),
            None => {
                let ghost old_views = self.views();
                proof {
                    if old_views.contains(state.tokens@) {
                        let j = choose|j: int| 0 <= j < old_views.len() && old_views[j] == state.tokens@;
                        assert(state_index_contents(self.by_state).dom().contains(old_views[j]));
                    }
                }
                let id = self.states.len();
                let key = state.tokens.clone();
                self.states.push(state);
                state_index_insert(&mut self.by_state, key, id);
                proof {
                    assert(self.views() =~= old_views.push(key@));
                    assert forall|x: Seq<u32>| #[trigger] state_index_contents(self.by_state).dom().contains(x) implies state_index_contents(
                        self.by_state,
                    )[x] < self.states@.len() && self.views()[state_index_contents(self.by_state)[x] as int]
                        == x by {}
                    assert forall|i: int| 0 <= i < self.states@.len() implies state_index_contents(self.by_state).dom().contains(
                        #[trigger] self.views()[i],
                    ) && state_index_contents(self.by_state)[self.views()[i]] == i by {
                        if i < old_views.len() {
                            assert(old_views[i] != key@);
                        }
                    }
                }
                (id, true)
            },
        }
    }

    /// The marking with a number.
    pub fn get(&self, id: usize) -> (r: &PetriState)
        requires
            id < self.states@.len(),
        ensures
            *r == self.states@[id as int],
    {
        &self.states[id]
    }
}

proof fn lemma_path_extend(net: PetriNet, p: Seq<Seq<u32>>, t: Seq<u32>)
    requires
        firing_path(net, p),
        next_markings(net.arcs(), p.last()).contains(t),
    ensures
        firing_path(net, p.push(t)),
        p.push(t).last() == t,
{
    assert forall|i: int| 0 <= i < p.push(t).len() - 1 implies next_markings(net.arcs(), p.push(t)[i]).contains(#[trigger] p.push(t)[i + 1]) by {
        if i < p.len() - 1 {
            assert(p.push(t)[i] == p[i]);
            assert(p.push(t)[i + 1] == p[i + 1]);
        }
    }
}

/// A list that holds the initial marking and the successors of each of its markings holds
/// every reachable marking.
proof fn lemma_closed_has_reachable(net: PetriNet, s: Seq<Seq<u32>>, p: Seq<Seq<u32>>)
    requires
        s.contains(net.initial_tokens@),
        forall|i: int, t: Seq<u32>| 0 <= i < s.len() && #[trigger] next_markings(net.arcs(), s[i]).contains(t) ==> s.contains(t),
        firing_path(net, p),
    ensures
        s.contains(p.last()),
    decreases p.len(),
{
    if p.len() > 1 {
        let q = p.drop_last();
        assert(firing_path(net, q)) by {
            assert forall|i: int| 0 <= i < q.len() - 1 implies next_markings(net.arcs(), q[i]).contains(#[trigger] q[i + 1]) by {
                assert(next_markings(net.arcs(), p[i]).contains(p[i + 1]));
            }
        }
        lemma_closed_has_reachable(net, s, q);
        let j = choose|j: int| 0 <= j < s.len() && s[j] == q.last();
        let i = p.len() - 2;
        assert(next_markings(net.arcs(), p[i]).contains(p[i + 1]));
        assert(p[i] == q.last());
        assert(next_markings(net.arcs(), s[j]).contains(p.last()));
    }
}

/// Counts the reachable markings and those that enable no transition, by a breadth-first
/// search from the initial marking.
pub fn get_reachability_stats(net: &PetriNet) -> (r: ReachabilityStats)
    requires
        net_ok(*net),
    ensures
        exists|s: Seq<Seq<u32>>| stats_of(*net, s, r),
        exists|s: Seq<Seq<u32>>|
            #[trigger] s.no_duplicates() && (forall|t: Seq<u32>| s.contains(t) <==> reachable_marking(*net, t))
                && r.reachable_count == s.len() && r.deadlock_count == s.filter(|m: Seq<u32>| dead_marking(*net, m)).len(),
{
    let mut interner = StateInterner::new();
    let mut reachable_count: usize = 0;
    let mut deadlock_count: usize = 0;
    let ghost np = net.initial_tokens@.len();
    let (initial_id, _) = interner.intern(net.initial_state());
    proof {
        let p0 = seq![net.initial_tokens@];
        assert(firing_path(*net, p0));
        assert(interner.views() =~= seq![net.initial_tokens@]);
        lemma_no_dups(interner);
        lemma_distinct_markings(interner.views(), np);
    }
    let mut current_id: usize = 0;
    while current_id < interner.states.len()
        invariant
            interner.wf(),
            net_ok(*net),
            np == net.initial_tokens@.len(),
            interner.views().len() >= 1,
            interner.views()[0] == net.initial_tokens@,
            current_id <= interner.views().len(),
            interner.views().len() <= marking_space(np),
            reachable_count == current_id,
            deadlock_count <= current_id,
            deadlock_count == deadlocks(*net, interner.views().take(current_id as int)),
            forall|i: int| 0 <= i < interner.views().len() ==> (#[trigger] interner.views()[i]).len() == np,
            forall|i: int| 0 <= i < interner.views().len() ==> reachable_marking(*net, #[trigger] interner.views()[i]),
            forall|i: int, t: Seq<u32>|
                0 <= i < current_id && #[trigger] next_markings(net.arcs(), interner.views()[i]).contains(t)
                    ==> interner.views().contains(t),
        decreases marking_space(np) - current_id,
    {
        proof {
            lemma_no_dups(interner);
            lemma_distinct_markings(interner.views(), np);
        }
        let ghost v0 = interner.views();
        let current_tokens = interner.get(current_id).tokens.clone();
        let current_state = PetriState { tokens: current_tokens };
        assert(current_state.tokens@ == v0[current_id as int]);
        proof {
            assert forall|i: int, k: int|
                0 <= i < net.arcs().len() && crate::petri_net::enabled(net.arcs()[i].0, current_state.tokens@)
                    && 0 <= k < net.arcs()[i].1.len() implies #[trigger] net.arcs()[i].1[k]
                < current_state.tokens@.len() by {}
        }
        let successors = net.next_states(&current_state);
        let ghost ms = next_markings(net.arcs(), v0[current_id as int]);
        proof {
            crate::product::lemma_next_markings_len(net.arcs(), v0[current_id as int]);
        }
        let mut generated: usize = 0;
        let mut k: usize = 0;
        while k < successors.len()
            invariant
                interner.wf(),
                net_ok(*net),
                np == net.initial_tokens@.len(),
                successors@.map_values(|s: PetriState| s.tokens@) == ms,
                ms == next_markings(net.arcs(), v0[current_id as int]),
                forall|j: int| 0 <= j < ms.len() ==> (#[trigger] ms[j]).len() == np,
                reachable_marking(*net, v0[current_id as int]),
                current_id < v0.len(),
                v0.len() <= interner.views().len(),
                forall|i: int| 0 <= i < v0.len() ==> #[trigger] interner.views()[i] == v0[i],
                k <= successors@.len(),
                generated == k,
                forall|i: int| 0 <= i < interner.views().len() ==> (#[trigger] interner.views()[i]).len() == np,
                forall|i: int| 0 <= i < interner.views().len() ==> reachable_marking(*net, #[trigger] interner.views()[i]),
                forall|j: int| 0 <= j < k ==> interner.views().contains(#[trigger] ms[j]),
            decreases successors.len() - k,
        {
            assert(successors@[k as int].tokens@ == ms[k as int]);
            let ghost vb = interner.views();
            let (_successor_id, _is_new) = interner.intern(successors[k].clone_state());
            proof {
                let pw = choose|p: Seq<Seq<u32>>| #[trigger] firing_path(*net, p) && p.last() == v0[current_id as int];
                assert(ms.contains(ms[k as int]));
                lemma_path_extend(*net, pw, ms[k as int]);
                assert forall|j: int| 0 <= j < k + 1 implies interner.views().contains(#[trigger] ms[j]) by {
                    if j < k {
                        let a = choose|a: int| 0 <= a < vb.len() && vb[a] == ms[j];
                        assert(interner.views()[a] == ms[j]);
                    } else {
                        assert(interner.views()[_successor_id as int] == ms[j]);
                    }
                }
                assert forall|i: int| 0 <= i < interner.views().len() implies reachable_marking(*net, #[trigger] interner.views()[i]) by {
                    if i < vb.len() {
                        assert(interner.views()[i] == vb[i]);
                    } else {
                        assert(interner.views()[i] == ms[k as int]);
                        assert(firing_path(*net, pw.push(ms[k as int])));
                    }
                }
                assert forall|i: int| 0 <= i < interner.views().len() implies (#[trigger] interner.views()[i]).len() == np by {
                    if i < vb.len() {
                        assert(interner.views()[i] == vb[i]);
                    } else {
                        assert(interner.views()[i] == ms[k as int]);
                    }
                }
            }
            generated = generated + 1;
            k = k + 1;
        }
        reachable_count = reachable_count + 1;
        if generated == 0 {
            deadlock_count = deadlock_count + 1;
        }
        proof {
            assert(ms.len() == successors@.len());
            let vn = interner.views();
            assert(vn.take(current_id + 1).drop_last() =~= vn.take(current_id as int));
            assert(vn.take(current_id as int) =~= v0.take(current_id as int));
            assert(vn.take(current_id + 1).last() == v0[current_id as int]);
            assert forall|i: int, t: Seq<u32>|
                0 <= i < current_id + 1 && #[trigger] next_markings(net.arcs(), vn[i]).contains(t) implies vn.contains(t) by {
                if i < current_id {
                    assert(vn[i] == v0[i]);
                    let a = choose|a: int| 0 <= a < v0.len() && v0[a] == t;
                    assert(vn[a] == t);
                } else {
                    let j = choose|j: int| 0 <= j < ms.len() && ms[j] == t;
                    assert(vn.contains(ms[j]));
                }
            }
            lemma_no_dups(interner);
            lemma_distinct_markings(interner.views(), np);
        }
        current_id = current_id + 1;
    }
    let r = ReachabilityStats { reachable_count, deadlock_count };
    proof {
        let s = interner.views();
        lemma_no_dups(interner);
        assert(s.take(current_id as int) =~= s);
        assert forall|t: Seq<u32>| s.contains(t) <==> reachable_marking(*net, t) by {
            if reachable_marking(*net, t) {
                let p = choose|p: Seq<Seq<u32>>| #[trigger] firing_path(*net, p) && p.last() == t;
                assert(s.contains(s[0]));
                lemma_closed_has_reachable(*net, s, p);
            }
            if s.contains(t) {
                let j = choose|j: int| 0 <= j < s.len() && s[j] == t;
                assert(reachable_marking(*net, s[j]));
            }
        }
        assert(stats_of(*net, s, r));
        lemma_stats_deadlocks(*net, s, r);
    }
    r
}

/// No transition is enabled at the marking `m`.
pub open spec fn dead_marking(net: PetriNet, m: Seq<u32>) -> bool {
    forall|j: int| 0 <= j < net.transitions@.len() ==> !enabled(#[trigger] net.transitions@[j].incoming@, m)
}

/// The deadlock count of a list of markings is the number of them at which no transition is
/// enabled.
pub proof fn lemma_deadlocks_count(net: PetriNet, s: Seq<Seq<u32>>)
    ensures
        deadlocks(net, s) == s.filter(|m: Seq<u32>| dead_marking(net, m)).len(),
    decreases s.len(),
{
    reveal(Seq::filter);
    if s.len() > 0 {
        lemma_deadlocks_count(net, s.drop_last());
        let m = s.last();
        lemma_no_successor(net.arcs(), m);
        assert(net.arcs().len() == net.transitions@.len());
        if dead_marking(net, m) {
            assert forall|j: int| 0 <= j < net.arcs().len() implies !enabled(#[trigger] net.arcs()[j].0, m) by {
                assert(net.arcs()[j].0 == net.transitions@[j].incoming@);
            }
        }
        if next_markings(net.arcs(), m).len() == 0 {
            assert forall|j: int| 0 <= j < net.transitions@.len() implies !enabled(#[trigger] net.transitions@[j].incoming@, m) by {
                assert(net.arcs()[j].0 == net.transitions@[j].incoming@);
            }
        }
    }
}

/// Reachability statistics count the reachable markings, each once, and as deadlocks exactly
/// those reachable markings at which no transition is enabled.
pub proof fn lemma_stats_deadlocks(net: PetriNet, s: Seq<Seq<u32>>, r: ReachabilityStats)
    requires
        stats_of(net, s, r),
    ensures
        s.no_duplicates(),
        forall|t: Seq<u32>| s.contains(t) <==> reachable_marking(net, t),
        r.reachable_count == s.len(),
        r.deadlock_count == s.filter(|m: Seq<u32>| dead_marking(net, m)).len(),
{
    lemma_deadlocks_count(net, s);
}

proof fn lemma_no_dups(interner: StateInterner)
    requires
        interner.wf(),
    ensures
        interner.views().no_duplicates(),
{
    let v = interner.views();
    assert forall|i: int, j: int| 0 <= i < v.len() && 0 <= j < v.len() && i != j implies v[i] != v[j] by {
        assert(state_index_contents(interner.by_state)[v[i]] == i);
        assert(state_index_contents(interner.by_state)[v[j]] == j);
    }
}

impl PetriState {
    /// A copy of the marking.
    pub fn clone_state(&self) -> (r: PetriState)
        ensures
            r.tokens@ == self.tokens@,
    {
        PetriState { tokens: self.tokens.clone() }
    }
}

} // verus!
