use vstd::prelude::*;
use vstd::string::*;

use rustc_hash::FxHashMap;

use crate::petri_net::{PetriNet, Place, Transition};

verus! {

/// A net under construction: places with their initial tokens, transitions, and arcs by name.
pub struct PetriNetBuilder {
    pub id: String,
    pub name: String,
    pub nodes: Vec<PetriNetNodeBuilder>,
    pub edges: Vec<PetriNetArcBuilder>,
    pub transition: Vec<PetriNetTransitionBuilder>,
}

pub struct PetriNetNodeBuilder {
    pub id: String,
    pub token: u32,
}

pub struct PetriNetTransitionBuilder {
    pub id: String,
}

pub struct PetriNetArcBuilder {
    pub source: String,
    pub target: String,
}

/// The value of a builder: its names, places with tokens, transitions and arcs.
pub struct BuilderView {
    pub id: Seq<char>,
    pub name: Seq<char>,
    pub nodes: Seq<(Seq<char>, u32)>,
    pub transitions: Seq<Seq<char>>,
    pub edges: Seq<(Seq<char>, Seq<char>)>,
}

impl PetriNetBuilder {
    pub open spec fn view_of(&self) -> BuilderView {
        BuilderView {
            id: self.id@,
            name: self.name@,
            nodes: self.nodes@.map_values(|n: PetriNetNodeBuilder| (n.id@, n.token)),
            transitions: self.transition@.map_values(|t: PetriNetTransitionBuilder| t.id@),
            edges: self.edges@.map_values(|a: PetriNetArcBuilder| (a.source@, a.target@)),
        }
    }
}

/// The value of a net: its names, places, initial tokens and transitions with their arcs.
pub struct NetView {
    pub id: Seq<char>,
    pub name: Seq<char>,
    pub places: Seq<Seq<char>>,
    pub initial_tokens: Seq<u32>,
    pub transitions: Seq<(Seq<char>, Seq<u32>, Seq<u32>)>,
}

pub open spec fn net_view(n: PetriNet) -> NetView {
    NetView {
        id: n.id@,
        name: n.name@,
        places: n.place_ids(),
        initial_tokens: n.initial_tokens@,
        transitions: n.transitions@.map_values(|t: Transition| (t.id@, t.incoming@, t.outgoing@)),
    }
}

/// The number of the last entry equal to `x`.
pub open spec fn last_index(s: Seq<Seq<char>>, x: Seq<char>) -> Option<int>
    decreases s.len(),
{
    if s.len() == 0 {
        None
    } else if s.last() == x {
        Some(s.len() - 1)
    } else {
        last_index(s.drop_last(), x)
    }
}

/// What an arc adds: `(true, t, p)` for an arc from place `p` into transition `t`,
/// `(false, t, p)` for one from transition `t` to place `p`, nothing when its ends do not
/// name a place and a transition in one of these ways.
pub open spec fn arc_effect(b: BuilderView, e: (Seq<char>, Seq<char>)) -> Option<(bool, int, int)> {
    let places = b.nodes.map_values(|n: (Seq<char>, u32)| n.0);
    match (last_index(places, e.0), last_index(b.transitions, e.1)) {
        (Some(p), Some(t)) => Some((true, t, p)),
        _ => match (last_index(b.transitions, e.0), last_index(places, e.1)) {
            (Some(t), Some(p)) => Some((false, t, p)),
            _ => None,
        },
    }
}

/// The places of the arcs among `edges` that run into (`incoming`) or out of transition `t`.
pub open spec fn arcs_of(b: BuilderView, edges: Seq<(Seq<char>, Seq<char>)>, t: int, incoming: bool) -> Seq<u32>
    decreases edges.len(),
{
    if edges.len() == 0 {
        seq![]
    } else {
        let prev = arcs_of(b, edges.drop_last(), t, incoming);
        match arc_effect(b, edges.last()) {
            Some(x) => if x.0 == incoming && x.1 == t {
                prev.push(x.2 as u32)
            } else {
                prev
            },
            None => prev,
        }
    }
}

/// The net a builder builds: its places in order with their tokens, its
/// transitions in order, and each arc added to the transition it touches.
pub open spec fn spec_build(b: BuilderView) -> NetView {
    NetView {
        id: b.id,
        name: b.name,
        places: b.nodes.map_values(|n: (Seq<char>, u32)| n.0),
        initial_tokens: b.nodes.map_values(|n: (Seq<char>, u32)| n.1),
        transitions: Seq::new(
            b.transitions.len(),
            |t: int| (b.transitions[t], arcs_of(b, b.edges, t, true), arcs_of(b, b.edges, t, false)),
        ),
    }
}

/// A map from names to numbers.
pub type NameIndex = FxHashMap<String, u32>;

/// What a map from names to numbers holds.
pub uninterp spec fn name_index_contents(m: NameIndex) -> Map<Seq<char>, u32>;

/// `FxHashMap::default`: a map that holds nothing.
#[verifier::external_body]
fn name_index_new() -> (r: NameIndex)
    ensures
        name_index_contents(r) =~= Map::empty(),
{
    FxHashMap::default()
}

/// `HashMap::insert` on an `FxHashMap` keyed by names: afterwards the name maps to the value
/// and every other name to what it mapped to before.
#[verifier::external_body]
fn name_index_insert(m: &mut NameIndex, key: String, value: u32)
    ensures
        name_index_contents(*final(m)) == name_index_contents(*old(m)).insert(key@, value),
{
    m.insert(key, value);
}

/// `HashMap::get` on an `FxHashMap` keyed by names: the value the name maps to, if any.
#[verifier::external_body]
fn name_index_get(m: &NameIndex, key: &String) -> (r: Option<u32>)
    ensures
        r == (if name_index_contents(*m).dom().contains(key@) {
            Some(name_index_contents(*m)[key@])
        } else {
            None
        }),
{
    m.get(key).copied()
}

/// The map from each name of `s` to the number of its last occurrence.
pub open spec fn last_index_map(s: Seq<Seq<char>>) -> Map<Seq<char>, u32> {
    Map::new(
        |x: Seq<char>| last_index(s, x) is Some,
        |x: Seq<char>| last_index(s, x)->Some_0 as u32,
    )
}

proof fn lemma_last_index_bounds(s: Seq<Seq<char>>, x: Seq<char>)
    ensures
        last_index(s, x) matches Some(i) ==> 0 <= i < s.len() && s[i] == x,
    decreases s.len(),
{
    if s.len() > 0 && s.last() != x {
        lemma_last_index_bounds(s.drop_last(), x);
    }
}

proof fn lemma_last_index_push(s: Seq<Seq<char>>, y: Seq<char>)
    ensures
        last_index_map(s.push(y)) == last_index_map(s).insert(y, s.len() as u32),
{
    assert(s.push(y).drop_last() =~= s);
    assert(last_index_map(s.push(y)) =~= last_index_map(s).insert(y, s.len() as u32));
}

/// Builds the map from names to the number of their last occurrence.
fn index_names(names: &Vec<String>) -> (r: NameIndex)
    requires
        names@.len() <= u32::MAX,
    ensures
        name_index_contents(r) == last_index_map(names@.map_values(|s: String| s@)),
{
    let ghost nv = names@.map_values(|s: String| s@);
    let mut m = name_index_new();
    assert(last_index_map(nv.take(0)) =~= Map::empty());
    let mut i: usize = 0;
    while i < names.len()
        invariant
            nv == names@.map_values(|s: String| s@),
            names@.len() <= u32::MAX,
            i <= names@.len(),
            name_index_contents(m) == last_index_map(nv.take(i as int)),
        decreases names.len() - i,
    {
        name_index_insert(&mut m, names[i].clone(), i as u32);
        proof {
            assert(nv.take(i + 1) =~= nv.take(i as int).push(nv[i as int]));
            lemma_last_index_push(nv.take(i as int), nv[i as int]);
        }
        i = i + 1;
    }
    assert(nv.take(names@.len() as int) =~= nv);
    m
}

impl PetriNetBuilder {
    /// An empty net with the given names.
    pub fn new(id: String, name: String) -> (r: Self)
        ensures
            r.view_of() == (BuilderView { id: id@, name: name@, nodes: seq![], transitions: seq![], edges: seq![] }),
    {
        let r = PetriNetBuilder { id, name, nodes: Vec::new(), edges: Vec::new(), transition: Vec::new() };
        assert(r.view_of().nodes =~= seq![]);
        assert(r.view_of().transitions =~= seq![]);
        assert(r.view_of().edges =~= seq![]);
        r
    }

    /// The builder with a place added.
    pub fn add_place(self, id: String, token: u32) -> (r: Self)
        ensures
            r.view_of() == (BuilderView { nodes: self.view_of().nodes.push((id@, token)), ..self.view_of() }),
    {
        let mut s = self;
        let ghost before = s.view_of();
        s.nodes.push(PetriNetNodeBuilder { id, token });
        assert(s.view_of().nodes =~= before.nodes.push((id@, token)));
        s
    }

    /// The builder with a transition added.
    pub fn add_transition(self, id: String) -> (r: Self)
        ensures
            r.view_of() == (BuilderView { transitions: self.view_of().transitions.push(id@), ..self.view_of() }),
    {
        let mut s = self;
        let ghost before = s.view_of();
        s.transition.push(PetriNetTransitionBuilder { id });
        assert(s.view_of().transitions =~= before.transitions.push(id@));
        s
    }

    /// The builder with an arc added.
    pub fn add_arc(self, source: String, target: String) -> (r: Self)
        ensures
            r.view_of() == (BuilderView { edges: self.view_of().edges.push((source@, target@)), ..self.view_of() }),
    {
        let mut s = self;
        let ghost before = s.view_of();
        s.edges.push(PetriNetArcBuilder { source, target });
        assert(s.view_of().edges =~= before.edges.push((source@, target@)));
        s
    }

    /// The net: places in order with their tokens, transitions in order, and
    /// each arc from a place to a transition, or from a transition to a place, added to its
    /// transition; arcs whose ends name neither are left out. Of two places or transitions of
    /// the same name, arcs go to the last.
    pub fn build(self) -> (r: PetriNet)
        requires
            self.nodes@.len() <= u32::MAX,
            self.transition@.len() <= u32::MAX,
        ensures
            net_view(r) == spec_build(self.view_of()),
    {
        let ghost b = self.view_of();
        let mut place_names: Vec<String> = Vec::new();
        let mut places: Vec<Place> = Vec::new();
        let mut initial_tokens: Vec<u32> = Vec::new();
        let mut i: usize = 0;
        while i < self.nodes.len()
            invariant
                b == self.view_of(),
                i <= self.nodes@.len(),
                place_names@.len() == i,
                places@.len() == i,
                initial_tokens@.len() == i,
                forall|j: int| 0 <= j < i ==> (#[trigger] place_names@[j])@ == b.nodes[j].0,
                forall|j: int| 0 <= j < i ==> (#[trigger] places@[j]).id@ == b.nodes[j].0,
                forall|j: int| 0 <= j < i ==> #[trigger] initial_tokens@[j] == b.nodes[j].1,
            decreases self.nodes.len() - i,
        {
            let node = &self.nodes[i];
            place_names.push(node.id.clone());
            places.push(Place { id: node.id.clone() });
            initial_tokens.push(node.token);
            proof {
                assert(b.nodes[i as int] == (node.id@, node.token));
            }
            i = i + 1;
        }
        assert(place_names@.map_values(|s: String| s@) =~= b.nodes.map_values(|n: (Seq<char>, u32)| n.0));
        assert(places@.map_values(|p: Place| p.id@) =~= b.nodes.map_values(|n: (Seq<char>, u32)| n.0));
        assert(initial_tokens@ =~= b.nodes.map_values(|n: (Seq<char>, u32)| n.1));
        let mut transition_names: Vec<String> = Vec::new();
        let mut i: usize = 0;
        while i < self.transition.len()
            invariant
                b == self.view_of(),
                i <= self.transition@.len(),
                transition_names@.len() == i,
                forall|j: int| 0 <= j < i ==> (#[trigger] transition_names@[j])@ == b.transitions[j],
            decreases self.transition.len() - i,
        {
            transition_names.push(self.transition[i].id.clone());
            i = i + 1;
        }
        assert(transition_names@.map_values(|s: String| s@) =~= b.transitions);
        let place_indices = index_names(&place_names);
        let transition_indices = index_names(&transition_names);
        let ghost pv = b.nodes.map_values(|n: (Seq<char>, u32)| n.0);
        assert(pv.len() == self.nodes@.len());
        let nt = self.transition.len();
        let mut incoming: Vec<Vec<u32>> = Vec::new();
        let mut outgoing: Vec<Vec<u32>> = Vec::new();
        let mut t: usize = 0;
        while t < nt
            invariant
                nt == b.transitions.len(),
                t <= nt,
                incoming@.len() == t,
                outgoing@.len() == t,
                forall|j: int| 0 <= j < t ==> (#[trigger] incoming@[j])@ == Seq::<u32>::empty(),
                forall|j: int| 0 <= j < t ==> (#[trigger] outgoing@[j])@ == Seq::<u32>::empty(),
            decreases nt - t,
        {
            incoming.push(Vec::new());
            outgoing.push(Vec::new());
            t = t + 1;
        }
        let mut k: usize = 0;
        while k < self.edges.len()
            invariant
                b == self.view_of(),
                pv == b.nodes.map_values(|n: (Seq<char>, u32)| n.0),
                name_index_contents(place_indices) == last_index_map(pv),
                name_index_contents(transition_indices) == last_index_map(b.transitions),
                nt == b.transitions.len(),
                pv.len() <= u32::MAX,
                nt <= u32::MAX,
                k <= b.edges.len(),
                incoming@.len() == nt,
                outgoing@.len() == nt,
                forall|j: int| 0 <= j < nt ==> (#[trigger] incoming@[j])@ == arcs_of(b, b.edges.take(k as int), j, true),
                forall|j: int| 0 <= j < nt ==> (#[trigger] outgoing@[j])@ == arcs_of(b, b.edges.take(k as int), j, false),
            decreases self.edges.len() - k,
        {
            let arc = &self.edges[k];
            let ghost e = b.edges[k as int];
            assert(e == (arc.source@, arc.target@));
            proof {
                assert(b.edges.take(k + 1).drop_last() =~= b.edges.take(k as int));
                assert(b.edges.take(k + 1).last() == e);
                lemma_last_index_bounds(pv, arc.source@);
                lemma_last_index_bounds(pv, arc.target@);
                lemma_last_index_bounds(b.transitions, arc.source@);
                lemma_last_index_bounds(b.transitions, arc.target@);
            }
            let ghost inc0 = incoming@;
            let ghost out0 = outgoing@;
            let sp = name_index_get(&place_indices, &arc.source);
            let tt = name_index_get(&transition_indices, &arc.target);
            proof {
                if sp is Some {
                    assert(last_index(pv, arc.source@) is Some);
                    assert(last_index(pv, arc.source@) == Some(sp->Some_0 as int));
                } else {
                    assert(last_index(pv, arc.source@) is None);
                }
                if tt is Some {
                    assert(last_index(b.transitions, arc.target@) == Some(tt->Some_0 as int));
                } else {
                    assert(last_index(b.transitions, arc.target@) is None);
                }
            }
            match (sp, tt) {
                (Some(source_place), Some(target_transition)) => {
                    let ti = target_transition as usize;
                    let mut list = incoming[ti].clone();
                    list.push(source_place);
                    incoming.set(ti, list);
                    proof {
                        assert(arc_effect(b, e) == Some((true, ti as int, source_place as int)));
                        assert forall|j: int| 0 <= j < nt implies (#[trigger] incoming@[j])@ == arcs_of(b, b.edges.take(k + 1), j, true) by {
                            if j != ti {
                                assert(incoming@[j] == inc0[j]);
                            }
                        }
                    }
                },
                _ => {
                    let st = name_index_get(&transition_indices, &arc.source);
                    let tp = name_index_get(&place_indices, &arc.target);
                    proof {
                        if st is Some {
                            assert(last_index(b.transitions, arc.source@) == Some(st->Some_0 as int));
                        } else {
                            assert(last_index(b.transitions, arc.source@) is None);
                        }
                        if tp is Some {
                            assert(last_index(pv, arc.target@) == Some(tp->Some_0 as int));
                        } else {
                            assert(last_index(pv, arc.target@) is None);
                        }
                    }
                    match (st, tp) {
                        (Some(source_transition), Some(target_place)) => {
                            let ti = source_transition as usize;
                            let mut list = outgoing[ti].clone();
                            list.push(target_place);
                            outgoing.set(ti, list);
                            proof {
                                assert(arc_effect(b, e) == Some((false, ti as int, target_place as int)));
                                assert forall|j: int| 0 <= j < nt implies (#[trigger] outgoing@[j])@ == arcs_of(b, b.edges.take(k + 1), j, false) by {
                                    if j != ti {
                                        assert(outgoing@[j] == out0[j]);
                                    }
                                }
                            }
                        },
                        _ => {
                            assert(arc_effect(b, e) is None);
                        },
                    }
                },
            }
            k = k + 1;
        }
        assert(b.edges.take(b.edges.len() as int) =~= b.edges);
        let mut transitions: Vec<Transition> = Vec::new();
        let mut t: usize = 0;
        while t < nt
            invariant
                b == self.view_of(),
                nt == b.transitions.len(),
                t <= nt,
                incoming@.len() == nt,
                outgoing@.len() == nt,
                transition_names@.map_values(|s: String| s@) == b.transitions,
                forall|j: int| 0 <= j < nt ==> (#[trigger] incoming@[j])@ == arcs_of(b, b.edges, j, true),
                forall|j: int| 0 <= j < nt ==> (#[trigger] outgoing@[j])@ == arcs_of(b, b.edges, j, false),
                transitions@.map_values(|tr: Transition| (tr.id@, tr.incoming@, tr.outgoing@)) == spec_build(b).transitions.take(t as int),
            decreases nt - t,
        {
            assert(transition_names@[t as int]@ == b.transitions[t as int]);
            let ghost before = transitions@.map_values(|tr: Transition| (tr.id@, tr.incoming@, tr.outgoing@));
            let tr = Transition {
                id: transition_names[t].clone(),
                incoming: incoming[t].clone(),
                outgoing: outgoing[t].clone(),
            };
            assert((tr.id@, tr.incoming@, tr.outgoing@) == spec_build(b).transitions[t as int]);
            transitions.push(tr);
            assert(transitions@.map_values(|tr: Transition| (tr.id@, tr.incoming@, tr.outgoing@)) =~= before.push(spec_build(b).transitions[t as int]));
            assert(spec_build(b).transitions.take(t + 1) =~= spec_build(b).transitions.take(t as int).push(spec_build(b).transitions[t as int]));
            t = t + 1;
        }
        assert(spec_build(b).transitions.take(nt as int) =~= spec_build(b).transitions);
        let r = PetriNet { id: self.id, name: self.name, places, transitions, initial_tokens };
        assert(net_view(r).places =~= spec_build(b).places);
        r
    }
}

/// An arc counted for a transition stays among its arcs as more arcs are added.
proof fn lemma_arcs_of_has(b: BuilderView, edges: Seq<(Seq<char>, Seq<char>)>, e: int, incoming: bool, t: int, p: int)
    requires
        0 <= e < edges.len(),
        arc_effect(b, edges[e]) == Some((incoming, t, p)),
    ensures
        arcs_of(b, edges, t, incoming).contains(p as u32),
    decreases edges.len(),
{
    let prev = arcs_of(b, edges.drop_last(), t, incoming);
    if e < edges.len() - 1 {
        assert(edges.drop_last()[e] == edges[e]);
        lemma_arcs_of_has(b, edges.drop_last(), e, incoming, t, p);
        let k = choose|k: int| 0 <= k < prev.len() && prev[k] == p as u32;
        assert(arcs_of(b, edges, t, incoming)[k] == p as u32);
    } else {
        assert(arcs_of(b, edges, t, incoming) == prev.push(p as u32));
        assert(arcs_of(b, edges, t, incoming)[prev.len() as int] == p as u32);
    }
}

/// Every arc a builder holds reaches the net it builds: an arc from the place last named `s`
/// to the transition last named `d` makes that place an input of that transition, and an arc
/// from the transition last named `s` to the place last named `d` (where the first reading
/// does not apply) makes that place an output of that transition.
pub proof fn lemma_arc_recorded(b: BuilderView, e: int)
    requires
        0 <= e < b.edges.len(),
    ensures
        ({
            let places = b.nodes.map_values(|n: (Seq<char>, u32)| n.0);
            let (src, dst) = b.edges[e];
            let pin = last_index(places, src);
            let tin = last_index(b.transitions, dst);
            let tout = last_index(b.transitions, src);
            let pout = last_index(places, dst);
            &&& pin is Some && tin is Some ==> 0 <= tin->Some_0 < spec_build(b).transitions.len()
                && spec_build(b).transitions[tin->Some_0].1.contains(pin->Some_0 as u32)
            &&& !(pin is Some && tin is Some) && tout is Some && pout is Some ==> 0 <= tout->Some_0
                < spec_build(b).transitions.len() && spec_build(b).transitions[tout->Some_0].2.contains(
                pout->Some_0 as u32,
            )
        }),
{
    let places = b.nodes.map_values(|n: (Seq<char>, u32)| n.0);
    let (src, dst) = b.edges[e];
    if last_index(places, src) is Some && last_index(b.transitions, dst) is Some {
        let p = last_index(places, src)->Some_0;
        let t = last_index(b.transitions, dst)->Some_0;
        lemma_last_index(b.transitions, dst);
        lemma_arcs_of_has(b, b.edges, e, true, t, p);
    } else if last_index(b.transitions, src) is Some && last_index(places, dst) is Some {
        let t = last_index(b.transitions, src)->Some_0;
        let p = last_index(places, dst)->Some_0;
        lemma_last_index(b.transitions, src);
        lemma_arcs_of_has(b, b.edges, e, false, t, p);
    }
}

/// `last_index` gives the position of the last entry equal to the name, where there is one.
pub proof fn lemma_last_index(s: Seq<Seq<char>>, x: Seq<char>)
    ensures
        last_index(s, x) matches Some(i) ==> 0 <= i < s.len() && s[i] == x && forall|j: int| i < j < s.len() ==> s[j] != x,
        last_index(s, x) is None ==> forall|j: int| 0 <= j < s.len() ==> s[j] != x,
    decreases s.len(),
{
    if s.len() > 0 {
        lemma_last_index(s.drop_last(), x);
        assert forall|j: int| 0 <= j < s.len() - 1 implies s.drop_last()[j] == s[j] by {}
    }
}

} // verus!
