use vstd::prelude::*;
use vstd::string::*;

use rustc_hash::FxHashMap;

use crate::text::{concat_map, decimal, join_map, push_decimal, push_text};

verus! {

/// A place/transition net; a transition takes one token per incoming arc from its place and
/// puts one per outgoing arc on its place.
#[derive(Clone, Debug)]
pub struct PetriNet {
    pub id: String,
    pub name: String,
    pub places: Vec<Place>,
    pub transitions: Vec<Transition>,
    pub initial_tokens: Vec<u32>,
}

#[derive(Clone, Debug)]
pub struct Place {
    pub id: String,
}

/// A transition with the place numbers of its incoming and outgoing arcs.
#[derive(Clone, Debug)]
pub struct Transition {
    pub id: String,
    pub incoming: Vec<u32>,
    pub outgoing: Vec<u32>,
}

/// A marking: the number of tokens on each place.
#[derive(Clone, Debug, PartialEq, Eq, Hash)]
pub struct PetriState {
    pub tokens: Vec<u32>,
}

/// A map from place numbers to counts.
pub type CountIndex = FxHashMap<u32, u32>;

/// What a map from place numbers to counts holds.
pub uninterp spec fn count_index_contents(m: CountIndex) -> Map<u32, u32>;

/// `FxHashMap::default`: a map that holds nothing.
#[verifier::external_body]
fn count_index_new() -> (r: CountIndex)
    ensures
        count_index_contents(r) =~= Map::empty(),
{
    FxHashMap::default()
}

/// `HashMap::insert` on an `FxHashMap`: afterwards the key maps to the value and every other
/// key to what it mapped to before.
#[verifier::external_body]
fn count_index_insert(m: &mut CountIndex, key: u32, value: u32)
    ensures
        count_index_contents(*final(m)) == count_index_contents(*old(m)).insert(key, value),
{
    m.insert(key, value);
}

/// `HashMap::get` on an `FxHashMap`: the value that the key maps to, if any.
#[verifier::external_body]
fn count_index_get(m: &CountIndex, key: u32) -> (r: Option<u32>)
    ensures
        r == (if count_index_contents(*m).dom().contains(key) {
            Some(count_index_contents(*m)[key])
        } else {
            None
        }),
{
    m.get(&key).copied()
}

/// The tokens on place `p`, 0 for a place the marking does not cover.
pub open spec fn token_at(t: Seq<u32>, p: int) -> int {
    if 0 <= p < t.len() {
        t[p] as int
    } else {
        0
    }
}

/// How often `x` occurs in `s`.
pub open spec fn occurrences(s: Seq<u32>, x: u32) -> nat
    decreases s.len(),
{
    if s.len() == 0 {
        0
    } else {
        occurrences(s.drop_last(), x) + if s.last() == x {
            1nat
        } else {
            0nat
        }
    }
}

/// Each place of an incoming arc holds at least as many tokens as there are arcs from it.
pub open spec fn enabled(incoming: Seq<u32>, tokens: Seq<u32>) -> bool {
    forall|k: int|
        0 <= k < incoming.len() ==> occurrences(incoming, #[trigger] incoming[k]) <= token_at(
            tokens,
            incoming[k] as int,
        )
}

/// One token less, but not below zero.
pub open spec fn dec_sat(x: u32) -> u32 {
    if x == 0 {
        0
    } else {
        (x - 1) as u32
    }
}

/// One token more, but not above `u32::MAX`.
pub open spec fn inc_sat(x: u32) -> u32 {
    if x == u32::MAX {
        x
    } else {
        (x + 1) as u32
    }
}

/// The marking after taking a token for each arc in turn.
pub open spec fn take_tokens(t: Seq<u32>, arcs: Seq<u32>) -> Seq<u32>
    decreases arcs.len(),
{
    if arcs.len() == 0 {
        t
    } else {
        let p = take_tokens(t, arcs.drop_last());
        if (arcs.last() as int) < p.len() {
            p.update(arcs.last() as int, dec_sat(p[arcs.last() as int]))
        } else {
            p
        }
    }
}

/// The marking after putting a token for each arc in turn.
pub open spec fn give_tokens(t: Seq<u32>, arcs: Seq<u32>) -> Seq<u32>
    decreases arcs.len(),
{
    if arcs.len() == 0 {
        t
    } else {
        let p = give_tokens(t, arcs.drop_last());
        if (arcs.last() as int) < p.len() {
            p.update(arcs.last() as int, inc_sat(p[arcs.last() as int]))
        } else {
            p
        }
    }
}

/// The marking after firing a transition.
pub open spec fn fire(t: Seq<u32>, arcs: (Seq<u32>, Seq<u32>)) -> Seq<u32> {
    give_tokens(take_tokens(t, arcs.0), arcs.1)
}

/// The markings after firing each enabled transition, in the order of the transitions.
pub open spec fn next_markings(trs: Seq<(Seq<u32>, Seq<u32>)>, t: Seq<u32>) -> Seq<Seq<u32>>
    decreases trs.len(),
{
    if trs.len() == 0 {
        seq![]
    } else {
        let p = next_markings(trs.drop_last(), t);
        if enabled(trs.last().0, t) {
            p.push(fire(t, trs.last()))
        } else {
            p
        }
    }
}

/// Every outgoing arc of a transition that is enabled at `t` leads to a place of `t`.
pub open spec fn fires_in_range(trs: Seq<(Seq<u32>, Seq<u32>)>, t: Seq<u32>) -> bool {
    forall|i: int, k: int|
        0 <= i < trs.len() && enabled(trs[i].0, t) && 0 <= k < trs[i].1.len() ==> #[trigger] trs[i].1[k]
            < t.len()
}

/// The index of the first entry equal to `x`, or the length.
pub open spec fn first_index_of(s: Seq<Seq<char>>, x: Seq<char>) -> int
    decreases s.len(),
{
    if s.len() == 0 {
        0
    } else if first_index_of(s.drop_last(), x) < s.len() - 1 {
        first_index_of(s.drop_last(), x)
    } else if s.last() == x {
        s.len() - 1
    } else {
        s.len() as int
    }
}

/// An arc in PNML, from `a` to `b`.
pub open spec fn arc_text(a: Seq<char>, b: Seq<char>) -> Seq<char> {
    "<arc id=\""@ + "arc_"@ + a + "_"@ + b + "\" source=\""@ + a + "\" target=\""@ + b + "\" />\n"@
}

impl PetriNet {
    /// The arcs of the transitions: incoming and outgoing place numbers.
    pub open spec fn arcs(&self) -> Seq<(Seq<u32>, Seq<u32>)> {
        self.transitions@.map_values(|t: Transition| (t.incoming@, t.outgoing@))
    }

    /// The names of the places.
    pub open spec fn place_ids(&self) -> Seq<Seq<char>> {
        self.places@.map_values(|p: Place| p.id@)
    }

    /// `{p1:1,p2:0}`: each place with the tokens it holds, 0 where the marking ends early.
    pub open spec fn state_text(&self, tokens: Seq<u32>) -> Seq<char> {
        "{"@ + join_map(
            self.places@.len(),
            ","@,
            |i: int| self.place_ids()[i] + ":"@ + decimal(token_at(tokens, i) as nat),
        ) + "}"@
    }

    /// A place in PNML, with the initial tokens of the first place of the same name.
    pub open spec fn place_text(&self, i: int) -> Seq<char> {
        let id = self.place_ids()[i];
        "<place id=\""@ + id + "\">\n"@ + "<initialMarking><text>"@ + decimal(
            token_at(self.initial_tokens@, first_index_of(self.place_ids(), id)) as nat,
        ) + "</text></initialMarking>\n"@ + "</place>\n"@
    }

    /// A transition in PNML.
    pub open spec fn transition_text(&self, i: int) -> Seq<char> {
        "<transition id=\""@ + self.transitions@[i].id@ + "\" />\n"@
    }

    /// The arcs of a transition in PNML, those that name no place left out.
    pub open spec fn arcs_text(&self, i: int) -> Seq<char> {
        let tr = self.transitions@[i];
        let ids = self.place_ids();
        concat_map(
            tr.incoming@.len(),
            |k: int|
                if (tr.incoming@[k] as int) < ids.len() {
                    arc_text(ids[tr.incoming@[k] as int], tr.id@)
                } else {
                    seq![]
                },
        ) + concat_map(
            tr.outgoing@.len(),
            |k: int|
                if (tr.outgoing@[k] as int) < ids.len() {
                    arc_text(tr.id@, ids[tr.outgoing@[k] as int])
                } else {
                    seq![]
                },
        )
    }

    /// The net in PNML.
    pub open spec fn pnml_text(&self) -> Seq<char> {
        "<pnml><net id=\""@ + self.id@
            + "\" type=\"http://www.pnml.org/version-2009/grammar/ptnet\">\n"@ + "<name><text>"@
            + self.name@ + "</text></name>\n"@ + "<page id=\"page1\">\n"@ + concat_map(
            self.places@.len(),
            |i: int| self.place_text(i),
        ) + concat_map(self.transitions@.len(), |i: int| self.transition_text(i)) + concat_map(
            self.transitions@.len(),
            |i: int| self.arcs_text(i),
        ) + "</page>"@ + "</net></pnml>"@
    }

    /// The initial marking.
    pub fn initial_state(&self) -> (r: PetriState)
        ensures
            r.tokens@ == self.initial_tokens@,
    {
        PetriState { tokens: self.initial_tokens.clone() }
    }

    /// The markings reached by firing one enabled transition, in the order of the
    /// transitions.
    pub fn next_states(&self, state: &PetriState) -> (r: Vec<PetriState>)
        requires
            fires_in_range(self.arcs(), state.tokens@),
            forall|i: int| 0 <= i < self.arcs().len() ==> (#[trigger] self.arcs()[i]).0.len() < u32::MAX,
        ensures
            r@.map_values(|s: PetriState| s.tokens@) == next_markings(self.arcs(), state.tokens@),
    {
        let ghost t = state.tokens@;
        let mut next_states: Vec<PetriState> = Vec::new();
        let mut i: usize = 0;
        while i < self.transitions.len()
            invariant
                i <= self.transitions@.len(),
                t == state.tokens@,
                fires_in_range(self.arcs(), t),
                forall|j: int| 0 <= j < self.arcs().len() ==> (#[trigger] self.arcs()[j]).0.len() < u32::MAX,
                next_states@.map_values(|s: PetriState| s.tokens@) == next_markings(
                    self.arcs().take(i as int),
                    t,
                ),
            decreases self.transitions.len() - i,
        {
            let transition = &self.transitions[i];
            assert(self.arcs()[i as int] == (transition.incoming@, transition.outgoing@));
            assert(self.arcs().take(i + 1).drop_last() =~= self.arcs().take(i as int));
            if transition.is_fireable(state) {
                let mut next_tokens = state.tokens.clone();
                let mut k: usize = 0;
                while k < transition.incoming.len()
                    invariant
                        k <= transition.incoming@.len(),
                        enabled(transition.incoming@, t),
                        next_tokens@ == take_tokens(t, transition.incoming@.take(k as int)),
                        next_tokens@.len() == t.len(),
                    decreases transition.incoming.len() - k,
                {
                    let index = transition.incoming[k] as usize;
                    proof {
                        assert(transition.incoming@.take(k + 1).drop_last() =~= transition.incoming@.take(k as int));
                        lemma_occurrences_positive(transition.incoming@, k as int);
                        assert(token_at(t, transition.incoming@[k as int] as int) >= 1);
                    }
                    next_tokens.set(index, next_tokens[index].saturating_sub(1));
                    k = k + 1;
                }
                assert(transition.incoming@.take(transition.incoming@.len() as int) =~= transition.incoming@);
                let ghost taken = next_tokens@;
                assert forall|j: int| 0 <= j < transition.outgoing@.len() implies #[trigger] transition.outgoing@[j] < t.len() by {
                    assert(self.arcs()[i as int].1[j] == transition.outgoing@[j]);
                }
                let mut k: usize = 0;
                while k < transition.outgoing.len()
                    invariant
                        k <= transition.outgoing@.len(),
                        forall|j: int| 0 <= j < transition.outgoing@.len() ==> #[trigger] transition.outgoing@[j] < t.len(),
                        next_tokens@ == give_tokens(taken, transition.outgoing@.take(k as int)),
                        next_tokens@.len() == t.len(),
                    decreases transition.outgoing.len() - k,
                {
                    let index = transition.outgoing[k] as usize;
                    proof {
                        assert(transition.outgoing@.take(k + 1).drop_last() =~= transition.outgoing@.take(k as int));
                    }
                    next_tokens.set(index, next_tokens[index].saturating_add(1));
                    k = k + 1;
                }
                assert(transition.outgoing@.take(transition.outgoing@.len() as int) =~= transition.outgoing@);
                let ghost before = next_states@.map_values(|s: PetriState| s.tokens@);
                next_states.push(PetriState { tokens: next_tokens });
                assert(next_states@.map_values(|s: PetriState| s.tokens@) =~= before.push(
                    fire(t, self.arcs()[i as int]),
                ));
            } else {
                assert(next_states@.map_values(|s: PetriState| s.tokens@) =~= next_markings(
                    self.arcs().take(i + 1),
                    t,
                ));
            }
            i = i + 1;
        }
        assert(self.arcs().take(self.arcs().len() as int) =~= self.arcs());
        next_states
    }

    /// The marking as text: each place with its tokens.
    pub fn get_state_string(&self, state: &PetriState) -> (r: String)
        ensures
            r@ == self.state_text(state.tokens@),
    {
        let ghost f = |i: int| self.place_ids()[i] + ":"@ + decimal(token_at(state.tokens@, i) as nat);
        let ghost g = |i: int| if i == 0 { f(i) } else { ","@ + f(i) };
        let mut out = String::new();
        push_text(&mut out, "{");
        let mut i: usize = 0;
        while i < self.places.len()
            invariant
                i <= self.places@.len(),
                g == (|i: int| if i == 0 { f(i) } else { ","@ + f(i) }),
                f == (|i: int| self.place_ids()[i] + ":"@ + decimal(token_at(state.tokens@, i) as nat)),
                out@ == "{"@ + concat_map(i as nat, g),
            decreases self.places.len() - i,
        {
            let ghost before = out@;
            if i > 0 {
                push_text(&mut out, ",");
            }
            push_text(&mut out, self.places[i].id.as_str());
            push_text(&mut out, ":");
            let count: u32 = if i < state.tokens.len() {
                state.tokens[i]
            } else {
                0
            };
            push_decimal(&mut out, count as u64);
            proof {
                assert(self.place_ids()[i as int] == self.places@[i as int].id@);
                assert(count as int == token_at(state.tokens@, i as int));
                assert(out@ =~= before + g(i as int));
                assert(concat_map((i + 1) as nat, g) == concat_map(i as nat, g) + g(i as int));
            }
            i = i + 1;
        }
        push_text(&mut out, "}");
        out
    }

    /// The net in PNML.
    pub fn to_pnml(&self) -> (r: String)
        ensures
            r@ == self.pnml_text(),
    {
        let mut pnml = String::new();
        push_text(&mut pnml, "<pnml><net id=\"");
        push_text(&mut pnml, self.id.as_str());
        push_text(&mut pnml, "\" type=\"http://www.pnml.org/version-2009/grammar/ptnet\">\n");
        push_text(&mut pnml, "<name><text>");
        push_text(&mut pnml, self.name.as_str());
        push_text(&mut pnml, "</text></name>\n");
        push_text(&mut pnml, "<page id=\"page1\">\n");
        let ghost head = pnml@;
        let ghost fp = |i: int| self.place_text(i);
        let mut i: usize = 0;
        while i < self.places.len()
            invariant
                i <= self.places@.len(),
                fp == (|i: int| self.place_text(i)),
                pnml@ == head + concat_map(i as nat, fp),
            decreases self.places.len() - i,
        {
            let ghost before = pnml@;
            let place = &self.places[i];
            push_text(&mut pnml, "<place id=\"");
            push_text(&mut pnml, place.id.as_str());
            push_text(&mut pnml, "\">\n");
            let index = self.place_position(&place.id);
            let initial_tokens: u32 = if index < self.initial_tokens.len() {
                self.initial_tokens[index]
            } else {
                0
            };
            push_text(&mut pnml, "<initialMarking><text>");
            push_decimal(&mut pnml, initial_tokens as u64);
            push_text(&mut pnml, "</text></initialMarking>\n");
            push_text(&mut pnml, "</place>\n");
            proof {
                assert(self.place_ids()[i as int] == place.id@);
                assert(pnml@ =~= before + fp(i as int));
            }
            i = i + 1;
        }
        let ghost head2 = pnml@;
        let ghost ft = |i: int| self.transition_text(i);
        let mut i: usize = 0;
        while i < self.transitions.len()
            invariant
                i <= self.transitions@.len(),
                ft == (|i: int| self.transition_text(i)),
                pnml@ == head2 + concat_map(i as nat, ft),
            decreases self.transitions.len() - i,
        {
            let ghost before = pnml@;
            push_text(&mut pnml, "<transition id=\"");
            push_text(&mut pnml, self.transitions[i].id.as_str());
            push_text(&mut pnml, "\" />\n");
            assert(pnml@ =~= before + ft(i as int));
            i = i + 1;
        }
        let ghost head3 = pnml@;
        let ghost fa = |i: int| self.arcs_text(i);
        let mut i: usize = 0;
        while i < self.transitions.len()
            invariant
                i <= self.transitions@.len(),
                fa == (|i: int| self.arcs_text(i)),
                pnml@ == head3 + concat_map(i as nat, fa),
            decreases self.transitions.len() - i,
        {
            let ghost before = pnml@;
            self.push_arcs(&mut pnml, i);
            assert(pnml@ =~= before + fa(i as int));
            i = i + 1;
        }
        push_text(&mut pnml, "</page>");
        push_text(&mut pnml, "</net></pnml>");
        proof {
            assert(pnml@ =~= self.pnml_text());
        }
        pnml
    }

    /// The position of the first place with the given name, or the number of places.
    fn place_position(&self, id: &String) -> (r: usize)
        ensures
            r == first_index_of(self.place_ids(), id@),
    {
        let mut j: usize = 0;
        while j < self.places.len()
            invariant
                j <= self.places@.len(),
                first_index_of(self.place_ids().take(j as int), id@) == j,
            decreases self.places.len() - j,
        {
            assert(self.place_ids().take(j + 1).drop_last() =~= self.place_ids().take(j as int));
            if self.places[j].id == *id {
                proof {
                    lemma_first_index_prefix(self.place_ids(), id@, (j + 1) as int);
                }
                return j;
            }
            j = j + 1;
        }
        assert(self.place_ids().take(j as int) =~= self.place_ids());
        j
    }

    fn push_arcs(&self, out: &mut String, i: usize)
        requires
            i < self.transitions@.len(),
        ensures
            final(out)@ == old(out)@ + self.arcs_text(i as int),
    {
        let tr = &self.transitions[i];
        let ghost ids = self.place_ids();
        let ghost fin = |k: int|
            if (tr.incoming@[k] as int) < ids.len() {
                arc_text(ids[tr.incoming@[k] as int], tr.id@)
            } else {
                seq![]
            };
        let ghost fout = |k: int|
            if (tr.outgoing@[k] as int) < ids.len() {
                arc_text(tr.id@, ids[tr.outgoing@[k] as int])
            } else {
                seq![]
            };
        let ghost start = out@;
        let mut k: usize = 0;
        while k < tr.incoming.len()
            invariant
                k <= tr.incoming@.len(),
                ids == self.place_ids(),
                fin == (|k: int|
                    if (tr.incoming@[k] as int) < ids.len() {
                        arc_text(ids[tr.incoming@[k] as int], tr.id@)
                    } else {
                        seq![]
                    }),
                out@ == start + concat_map(k as nat, fin),
            decreases tr.incoming.len() - k,
        {
            let ghost before = out@;
            let p = tr.incoming[k] as usize;
            if p < self.places.len() {
                let place = &self.places[p];
                assert(ids[p as int] == place.id@);
                push_text(out, "<arc id=\"");
                push_text(out, "arc_");
                push_text(out, place.id.as_str());
                push_text(out, "_");
                push_text(out, tr.id.as_str());
                push_text(out, "\" source=\"");
                push_text(out, place.id.as_str());
                push_text(out, "\" target=\"");
                push_text(out, tr.id.as_str());
                push_text(out, "\" />\n");
            }
            assert(out@ =~= before + fin(k as int));
            k = k + 1;
        }
        let ghost mid = out@;
        let mut k: usize = 0;
        while k < tr.outgoing.len()
            invariant
                k <= tr.outgoing@.len(),
                ids == self.place_ids(),
                fout == (|k: int|
                    if (tr.outgoing@[k] as int) < ids.len() {
                        arc_text(tr.id@, ids[tr.outgoing@[k] as int])
                    } else {
                        seq![]
                    }),
                out@ == mid + concat_map(k as nat, fout),
            decreases tr.outgoing.len() - k,
        {
            let ghost before = out@;
            let p = tr.outgoing[k] as usize;
            if p < self.places.len() {
                let place = &self.places[p];
                assert(ids[p as int] == place.id@);
                push_text(out, "<arc id=\"");
                push_text(out, "arc_");
                push_text(out, tr.id.as_str());
                push_text(out, "_");
                push_text(out, place.id.as_str());
                push_text(out, "\" source=\"");
                push_text(out, tr.id.as_str());
                push_text(out, "\" target=\"");
                push_text(out, place.id.as_str());
                push_text(out, "\" />\n");
            }
            assert(out@ =~= before + fout(k as int));
            k = k + 1;
        }
        assert(out@ =~= old(out)@ + self.arcs_text(i as int));
    }
}

proof fn lemma_first_index_prefix(s: Seq<Seq<char>>, x: Seq<char>, n: int)
    requires
        0 < n <= s.len(),
        s[n - 1] == x,
        first_index_of(s.take(n - 1), x) == n - 1,
    ensures
        first_index_of(s, x) == n - 1,
    decreases s.len(),
{
    if s.len() == n {
        assert(s.drop_last() =~= s.take(n - 1));
    } else {
        assert(s.drop_last().take(n - 1) =~= s.take(n - 1));
        lemma_first_index_prefix(s.drop_last(), x, n);
    }
}

proof fn lemma_occurrences_positive(s: Seq<u32>, k: int)
    requires
        0 <= k < s.len(),
    ensures
        occurrences(s, s[k]) >= 1,
    decreases s.len(),
{
    if k < s.len() - 1 {
        lemma_occurrences_positive(s.drop_last(), k);
    }
}

proof fn lemma_occurrences_le_len(s: Seq<u32>, x: u32)
    ensures
        occurrences(s, x) <= s.len(),
    decreases s.len(),
{
    if s.len() > 0 {
        lemma_occurrences_le_len(s.drop_last(), x);
    }
}

impl Transition {
    /// Whether the transition is enabled at a marking.
    pub fn is_fireable(&self, state: &PetriState) -> (r: bool)
        requires
            self.incoming@.len() < u32::MAX,
        ensures
            r == enabled(self.incoming@, state.tokens@),
    {
        self.is_fireable_tokens(state.tokens.as_slice())
    }

    /// Whether each place of an incoming arc holds at least as many tokens as there are arcs
    /// from it.
    pub fn is_fireable_tokens(&self, tokens: &[u32]) -> (r: bool)
        requires
            self.incoming@.len() < u32::MAX,
        ensures
            r == enabled(self.incoming@, tokens@),
    {
        let ghost inc = self.incoming@;
        let mut required_tokens = count_index_new();
        let mut k: usize = 0;
        while k < self.incoming.len()
            invariant
                inc == self.incoming@,
                inc.len() < u32::MAX,
                k <= inc.len(),
                forall|x: u32| #[trigger] count_index_contents(required_tokens).dom().contains(x)
                    <==> inc.take(k as int).contains(x),
                forall|x: u32| #[trigger] count_index_contents(required_tokens).dom().contains(x)
                    ==> count_index_contents(required_tokens)[x] == occurrences(inc.take(k as int), x),
            decreases self.incoming.len() - k,
        {
            let incoming_index = self.incoming[k];
            proof {
                assert(inc.take(k + 1).drop_last() =~= inc.take(k as int));
                lemma_occurrences_le_len(inc.take(k as int), incoming_index);
            }
            let current = match count_index_get(&required_tokens, incoming_index) {
                Some(c) => c,
                None => 0,
            };
            proof {
                if !inc.take(k as int).contains(incoming_index) {
                    lemma_occurrences_absent(inc.take(k as int), incoming_index);
                }
            }
            count_index_insert(&mut required_tokens, incoming_index, current + 1);
            proof {
                assert forall|x: u32| #[trigger] count_index_contents(required_tokens).dom().contains(x)
                    <==> inc.take(k + 1).contains(x) by {
                    if inc.take(k + 1).contains(x) && x != incoming_index {
                        let j = choose|j: int| 0 <= j < k + 1 && #[trigger] inc.take(k + 1)[j] == x;
                        assert(inc.take(k as int)[j] == x);
                    }
                    if inc.take(k as int).contains(x) {
                        let j = choose|j: int| 0 <= j < k && #[trigger] inc.take(k as int)[j] == x;
                        assert(inc.take(k + 1)[j] == x);
                    }
                    assert(inc.take(k + 1)[k as int] == incoming_index);
                }
            }
            k = k + 1;
        }
        assert(inc.take(inc.len() as int) =~= inc);
        let mut k: usize = 0;
        while k < self.incoming.len()
            invariant
                inc == self.incoming@,
                k <= inc.len(),
                forall|x: u32| #[trigger] count_index_contents(required_tokens).dom().contains(x)
                    <==> inc.contains(x),
                forall|x: u32| #[trigger] count_index_contents(required_tokens).dom().contains(x)
                    ==> count_index_contents(required_tokens)[x] == occurrences(inc, x),
                forall|j: int| 0 <= j < k ==> occurrences(inc, #[trigger] inc[j]) <= token_at(tokens@, inc[j] as int),
            decreases self.incoming.len() - k,
        {
            let incoming_index = self.incoming[k];
            assert(inc.contains(incoming_index));
            let required_count = match count_index_get(&required_tokens, incoming_index) {
                Some(c) => c,
                None => 0,
            };
            let available: u32 = if (incoming_index as usize) < tokens.len() {
                tokens[incoming_index as usize]
            } else {
                0
            };
            if available < required_count {
                return false;
            }
            k = k + 1;
        }
        true
    }
}

proof fn lemma_occurrences_absent(s: Seq<u32>, x: u32)
    requires
        !s.contains(x),
    ensures
        occurrences(s, x) == 0,
    decreases s.len(),
{
    if s.len() > 0 {
        assert(!s.drop_last().contains(x)) by {
            if s.drop_last().contains(x) {
                let j = choose|j: int| 0 <= j < s.drop_last().len() && s.drop_last()[j] == x;
                assert(s[j] == x);
            }
        }
        lemma_occurrences_absent(s.drop_last(), x);
        assert(s[s.len() - 1] != x);
    }
}

/// A transition that is enabled at a marking gives, by firing, one of its successor markings.
pub proof fn lemma_enabled_successor(trs: Seq<(Seq<u32>, Seq<u32>)>, t: Seq<u32>, j: int)
    requires
        0 <= j < trs.len(),
        enabled(trs[j].0, t),
    ensures
        next_markings(trs, t).contains(fire(t, trs[j])),
    decreases trs.len(),
{
    let p = next_markings(trs.drop_last(), t);
    if j < trs.len() - 1 {
        lemma_enabled_successor(trs.drop_last(), t, j);
        assert(trs.drop_last()[j] == trs[j]);
        let k = choose|k: int| 0 <= k < p.len() && p[k] == fire(t, trs[j]);
        if enabled(trs.last().0, t) {
            assert(next_markings(trs, t)[k] == p[k]);
        }
    } else {
        assert(next_markings(trs, t) == p.push(fire(t, trs.last())));
        assert(next_markings(trs, t)[p.len() as int] == fire(t, trs[j]));
    }
}

/// A marking has no successor exactly when no transition is enabled at it.
pub proof fn lemma_no_successor(trs: Seq<(Seq<u32>, Seq<u32>)>, t: Seq<u32>)
    ensures
        next_markings(trs, t).len() == 0 <==> forall|j: int| 0 <= j < trs.len() ==> !enabled(#[trigger] trs[j].0, t),
    decreases trs.len(),
{
    if trs.len() > 0 {
        lemma_no_successor(trs.drop_last(), t);
        if next_markings(trs, t).len() == 0 {
            assert forall|j: int| 0 <= j < trs.len() implies !enabled(#[trigger] trs[j].0, t) by {
                if j < trs.len() - 1 {
                    assert(trs.drop_last()[j] == trs[j]);
                }
            }
        }
        if forall|j: int| 0 <= j < trs.len() ==> !enabled(#[trigger] trs[j].0, t) {
            assert(!enabled(trs[trs.len() - 1].0, t));
            assert forall|j: int| 0 <= j < trs.drop_last().len() implies !enabled(#[trigger] trs.drop_last()[j].0, t) by {
                assert(trs.drop_last()[j] == trs[j]);
            }
        }
    }
}

/// Taking a token for each arc leaves the length alone and takes from a place one token per
/// arc from it, where it has that many.
proof fn lemma_take_count(t: Seq<u32>, arcs: Seq<u32>, p: int)
    requires
        0 <= p < t.len(),
        p <= u32::MAX,
        occurrences(arcs, p as u32) <= t[p],
    ensures
        take_tokens(t, arcs).len() == t.len(),
        take_tokens(t, arcs)[p] == t[p] - occurrences(arcs, p as u32),
    decreases arcs.len(),
{
    if arcs.len() > 0 {
        lemma_take_count(t, arcs.drop_last(), p);
    }
}

/// Putting a token for each arc leaves the length alone and gives a place one token per arc
/// to it, where the count stays within `u32`.
proof fn lemma_give_count(t: Seq<u32>, arcs: Seq<u32>, p: int)
    requires
        0 <= p < t.len(),
        p <= u32::MAX,
        t[p] + occurrences(arcs, p as u32) <= u32::MAX,
    ensures
        give_tokens(t, arcs).len() == t.len(),
        give_tokens(t, arcs)[p] == t[p] + occurrences(arcs, p as u32),
    decreases arcs.len(),
{
    if arcs.len() > 0 {
        lemma_give_count(t, arcs.drop_last(), p);
    }
}

/// Firing an enabled transition keeps the number of places and changes the tokens on each
/// place by the arcs into it less the arcs out of it, where the count stays within `u32`.
pub proof fn lemma_fire_tokens(t: Seq<u32>, arcs: (Seq<u32>, Seq<u32>), p: int)
    requires
        enabled(arcs.0, t),
        0 <= p < t.len(),
        p <= u32::MAX,
        t[p] - occurrences(arcs.0, p as u32) + occurrences(arcs.1, p as u32) <= u32::MAX,
    ensures
        fire(t, arcs).len() == t.len(),
        fire(t, arcs)[p] == t[p] - occurrences(arcs.0, p as u32) + occurrences(arcs.1, p as u32),
{
    let x = p as u32;
    if arcs.0.contains(x) {
        let k = choose|k: int| 0 <= k < arcs.0.len() && arcs.0[k] == x;
        assert(occurrences(arcs.0, arcs.0[k]) <= token_at(t, arcs.0[k] as int));
    } else {
        lemma_occurrences_absent(arcs.0, x);
    }
    lemma_take_count(t, arcs.0, p);
    lemma_give_count(take_tokens(t, arcs.0), arcs.1, p);
}

} // verus!
