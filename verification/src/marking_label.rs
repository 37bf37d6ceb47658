use vstd::prelude::*;

use crate::closure::fviews;
use crate::ltl_parser::{Formula, LTL};
use crate::petri_net::{enabled, token_at, PetriNet};

verus! {

/// The index of the first name equal to `x`, or the number of names.
pub open spec fn find_name(s: Seq<Seq<char>>, x: Seq<char>) -> int
    decreases s.len(),
{
    if s.len() == 0 {
        0
    } else if find_name(s.drop_last(), x) < s.len() - 1 {
        find_name(s.drop_last(), x)
    } else if s.last() == x {
        s.len() - 1
    } else {
        s.len() as int
    }
}

impl PetriNet {
    /// The names of the transitions.
    pub open spec fn transition_ids(&self) -> Seq<Seq<char>> {
        self.transitions@.map_values(|t: crate::petri_net::Transition| t.id@)
    }

    /// Every transition has fewer incoming arcs than `u32::MAX`.
    pub open spec fn arcs_countable(&self) -> bool {
        forall|i: int| 0 <= i < self.arcs().len() ==> (#[trigger] self.arcs()[i]).0.len() < u32::MAX
    }
}

/// The number a term stands for at a marking: a constant, or the tokens on the first place of
/// the name (0 when no place has it).
pub open spec fn eval_num(f: Formula, net: PetriNet, tokens: Seq<u32>) -> Option<int> {
    match f {
        Formula::Number(n) => Some(n as int),
        Formula::TokenCount(name) => {
            let i = find_name(net.place_ids(), name);
            Some(if i < net.places@.len() { token_at(tokens, i) } else { 0 })
        },
        _ => None,
    }
}

/// The truth of an atomic proposition at a marking, where it has one.
pub open spec fn eval_bool(f: Formula, net: PetriNet, tokens: Seq<u32>) -> Option<bool> {
    match f {
        Formula::Var(name) => {
            let i = find_name(net.place_ids(), name);
            if i < net.places@.len() {
                Some(token_at(tokens, i) > 0)
            } else {
                None
            }
        },
        Formula::Fireable(name) => {
            let j = find_name(net.transition_ids(), name);
            Some(j < net.transitions@.len() && enabled(net.transitions@[j].incoming@, tokens))
        },
        Formula::LessEqual(a, b) => match (eval_num(*a, net, tokens), eval_num(*b, net, tokens)) {
            (Some(l), Some(r)) => Some(l <= r),
            _ => None,
        },
        Formula::GreaterEqual(a, b) => match (eval_num(*a, net, tokens), eval_num(*b, net, tokens)) {
            (Some(l), Some(r)) => Some(l >= r),
            _ => None,
        },
        Formula::Greater(a, b) => match (eval_num(*a, net, tokens), eval_num(*b, net, tokens)) {
            (Some(l), Some(r)) => Some(l > r),
            _ => None,
        },
        Formula::Less(a, b) => match (eval_num(*a, net, tokens), eval_num(*b, net, tokens)) {
            (Some(l), Some(r)) => Some(l < r),
            _ => None,
        },
        _ => None,
    }
}

/// The label of a marking: the truth of the propositions of the closure that have one at the
/// marking (variables, fireability, comparisons), in closure order.
pub open spec fn marking_label(closure: Seq<Formula>, net: PetriNet, tokens: Seq<u32>) -> Seq<bool>
    decreases closure.len(),
{
    if closure.len() == 0 {
        seq![]
    } else {
        let prev = marking_label(closure.drop_last(), net, tokens);
        let f = closure.last();
        if f is Var || f is Fireable || f is LessEqual || f is GreaterEqual || f is Greater || f is Less {
            match eval_bool(f, net, tokens) {
                Some(b) => prev.push(b),
                None => prev,
            }
        } else {
            prev
        }
    }
}

fn find_place(net: &PetriNet, name: &String) -> (r: usize)
    ensures
        r == find_name(net.place_ids(), name@),
{
    let mut j: usize = 0;
    while j < net.places.len()
        invariant
            j <= net.places@.len(),
            find_name(net.place_ids().take(j as int), name@) == j,
        decreases net.places.len() - j,
    {
        assert(net.place_ids().take(j + 1).drop_last() =~= net.place_ids().take(j as int));
        if net.places[j].id == *name {
            proof {
                lemma_find_name_prefix(net.place_ids(), name@, (j + 1) as int);
            }
            return j;
        }
        j = j + 1;
    }
    assert(net.place_ids().take(j as int) =~= net.place_ids());
    j
}

fn find_transition(net: &PetriNet, name: &String) -> (r: usize)
    ensures
        r == find_name(net.transition_ids(), name@),
{
    let mut j: usize = 0;
    while j < net.transitions.len()
        invariant
            j <= net.transitions@.len(),
            find_name(net.transition_ids().take(j as int), name@) == j,
        decreases net.transitions.len() - j,
    {
        assert(net.transition_ids().take(j + 1).drop_last() =~= net.transition_ids().take(j as int));
        if net.transitions[j].id == *name {
            proof {
                lemma_find_name_prefix(net.transition_ids(), name@, (j + 1) as int);
            }
            return j;
        }
        j = j + 1;
    }
    assert(net.transition_ids().take(j as int) =~= net.transition_ids());
    j
}

proof fn lemma_find_name_prefix(s: Seq<Seq<char>>, x: Seq<char>, n: int)
    requires
        0 < n <= s.len(),
        s[n - 1] == x,
        find_name(s.take(n - 1), x) == n - 1,
    ensures
        find_name(s, x) == n - 1,
    decreases s.len(),
{
    if s.len() == n {
        assert(s.drop_last() =~= s.take(n - 1));
    } else {
        assert(s.drop_last().take(n - 1) =~= s.take(n - 1));
        lemma_find_name_prefix(s.drop_last(), x, n);
    }
}

fn eval_num_exec(expr: &LTL, petri: &PetriNet, tokens: &[u32]) -> (r: Option<u64>)
    ensures
        r matches Some(v) ==> eval_num(expr@, *petri, tokens@) == Some(v as int),
        r is None ==> eval_num(expr@, *petri, tokens@) is None,
{
    match expr {
        LTL::Number(n) => Some(*n as u64),
        LTL::TokenCount(name) => {
            let idx = find_place(petri, name);
            if idx < petri.places.len() {
                if idx < tokens.len() {
                    Some(tokens[idx] as u64)
                } else {
                    Some(0)
                }
            } else {
                Some(0)
            }
        },
        _ => {
            proof {
                crate::ltl_parser::lemma_view_variant(*expr);
            }
            None
        },
    }
}

fn compare(expr: &LTL, petri: &PetriNet, tokens: &[u32]) -> (r: Option<bool>)
    requires
        expr@ is LessEqual || expr@ is GreaterEqual || expr@ is Greater || expr@ is Less,
    ensures
        r == eval_bool(expr@, *petri, tokens@),
{
    proof {
        crate::ltl_parser::lemma_view_variant(*expr);
    }
    match expr {
        LTL::LessEqual(left, right) => {
            match (eval_num_exec(left, petri, tokens), eval_num_exec(right, petri, tokens)) {
                (Some(l), Some(r)) => Some(l <= r),
                _ => None,
            }
        },
        LTL::GreaterEqual(left, right) => {
            match (eval_num_exec(left, petri, tokens), eval_num_exec(right, petri, tokens)) {
                (Some(l), Some(r)) => Some(l >= r),
                _ => None,
            }
        },
        LTL::Greater(left, right) => {
            match (eval_num_exec(left, petri, tokens), eval_num_exec(right, petri, tokens)) {
                (Some(l), Some(r)) => Some(l > r),
                _ => None,
            }
        },
        LTL::Less(left, right) => {
            match (eval_num_exec(left, petri, tokens), eval_num_exec(right, petri, tokens)) {
                (Some(l), Some(r)) => Some(l < r),
                _ => None,
            }
        },
        _ => None,
    }
}

fn eval_bool_exec(formula: &LTL, petri: &PetriNet, tokens: &[u32]) -> (r: Option<bool>)
    requires
        petri.arcs_countable(),
    ensures
        r == eval_bool(formula@, *petri, tokens@),
{
    proof {
        crate::ltl_parser::lemma_view_variant(*formula);
    }
    match formula {
        LTL::Var(name) => {
            let idx = find_place(petri, name);
            if idx < petri.places.len() {
                let v: u32 = if idx < tokens.len() {
                    tokens[idx]
                } else {
                    0
                };
                Some(v > 0)
            } else {
                None
            }
        },
        LTL::Fireable(name) => {
            let j = find_transition(petri, name);
            if j < petri.transitions.len() {
                assert(petri.arcs()[j as int].0 == petri.transitions@[j as int].incoming@);
                Some(petri.transitions[j].is_fireable_tokens(tokens))
            } else {
                Some(false)
            }
        },
        LTL::LessEqual(_, _) | LTL::GreaterEqual(_, _) | LTL::Greater(_, _) | LTL::Less(_, _) => {
            compare(formula, petri, tokens)
        },
        _ => None,
    }
}

/// The label of a marking for an automaton over `closure`: the truth of each proposition of
/// the closure that has one at the marking, in closure order.
pub fn compute_label(tokens: &[u32], petri: &PetriNet, closure: &[LTL]) -> (r: Vec<bool>)
    requires
        petri.arcs_countable(),
    ensures
        r@ == marking_label(fviews(closure@), *petri, tokens@),
{
    let mut out: Vec<bool> = Vec::new();
    let mut i: usize = 0;
    while i < closure.len()
        invariant
            i <= closure@.len(),
            petri.arcs_countable(),
            out@ == marking_label(fviews(closure@).take(i as int), *petri, tokens@),
        decreases closure.len() - i,
    {
        let formula = &closure[i];
        proof {
            crate::ltl_parser::lemma_view_variant(*formula);
            assert(fviews(closure@).take(i + 1).drop_last() =~= fviews(closure@).take(i as int));
            assert(fviews(closure@).take(i + 1).last() == formula@);
        }
        match formula {
            LTL::Var(_) | LTL::Fireable(_) | LTL::LessEqual(_, _) | LTL::GreaterEqual(_, _)
            | LTL::Greater(_, _) | LTL::Less(_, _) => {
                match eval_bool_exec(formula, petri, tokens) {
                    Some(b) => out.push(b),
                    None => {},
                }
            },
            _ => {},
        }
        i = i + 1;
    }
    assert(fviews(closure@).take(closure@.len() as int) =~= fviews(closure@));
    out
}

/// `find_name` gives the first position of a name that occurs.
pub proof fn lemma_find_name_first(s: Seq<Seq<char>>, x: Seq<char>, j: int)
    requires
        0 <= j < s.len(),
        s[j] == x,
        forall|i: int| 0 <= i < j ==> s[i] != x,
    ensures
        find_name(s, x) == j,
    decreases s.len(),
{
    if j < s.len() - 1 {
        assert(s.drop_last()[j] == s[j]);
        assert forall|i: int| 0 <= i < j implies s.drop_last()[i] != x by {
            assert(s.drop_last()[i] == s[i]);
        }
        lemma_find_name_first(s.drop_last(), x, j);
    } else {
        assert forall|i: int| 0 <= i < s.drop_last().len() implies s.drop_last()[i] != x by {
            assert(s.drop_last()[i] == s[i]);
        }
        lemma_find_name_absent(s.drop_last(), x);
    }
}

/// `find_name` gives the number of names for a name that does not occur.
pub proof fn lemma_find_name_absent(s: Seq<Seq<char>>, x: Seq<char>)
    requires
        forall|i: int| 0 <= i < s.len() ==> s[i] != x,
    ensures
        find_name(s, x) == s.len(),
    decreases s.len(),
{
    if s.len() > 0 {
        assert forall|i: int| 0 <= i < s.drop_last().len() implies s.drop_last()[i] != x by {
            assert(s.drop_last()[i] == s[i]);
        }
        lemma_find_name_absent(s.drop_last(), x);
        assert(s.last() == s[s.len() - 1]);
    }
}

} // verus!
