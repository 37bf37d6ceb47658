use vstd::prelude::*;

use crate::closure::{compute_closure, fviews, spec_closure};
use crate::consistency::{bviews, completions, first_index, is_consistent, lemma_first_index, find_index};
use crate::ltl_parser::{lemma_view_variant, spec_size, Formula, LTL};
use crate::pnf::{automaton_formula, spec_automaton_formula};
use crate::language::{accepts_trace, language_exact, lemma_gnba_language};
use crate::semantics::holds;

verus! {

/// A generalized Büchi automaton built from the consistent truth vectors over the closure
/// of a formula in positive normal form.
pub struct GNBA {
    pub closure: Vec<LTL>,
    pub states: Vec<State>,
    pub transitions: Vec<Transitions>,
    pub initial_states: Vec<usize>,
    pub acceptance_conditions: Vec<AcceptanceCondition>,
}

pub struct State {
    pub id: usize,
    pub formulas: Vec<bool>,
}

pub struct Transitions {
    pub transitions: Vec<usize>,
    pub label: Vec<Vec<bool>>,
}

pub struct AcceptanceCondition {
    pub states: Vec<usize>,
}

/// The indices `i < n` for which `p(i)` holds, in increasing order.
pub open spec fn filter_ids(n: nat, p: spec_fn(int) -> bool) -> Seq<usize>
    decreases n,
{
    if n == 0 {
        seq![]
    } else {
        let prev = filter_ids((n - 1) as nat, p);
        if p(n - 1) {
            prev.push((n - 1) as usize)
        } else {
            prev
        }
    }
}

pub proof fn lemma_filter_ids(n: nat, p: spec_fn(int) -> bool)
    requires
        n <= usize::MAX,
    ensures
        forall|i: int| #![trigger filter_ids(n, p).contains(i as usize)]
            0 <= i < n ==> (filter_ids(n, p).contains(i as usize) <==> p(i)),
        forall|k: int| 0 <= k < filter_ids(n, p).len() ==> #[trigger] filter_ids(n, p)[k] < n,
        forall|k: int| 0 <= k < filter_ids(n, p).len() ==> p(#[trigger] filter_ids(n, p)[k] as int),
        filter_ids(n, p).no_duplicates(),
    decreases n,
{
    if n > 0 {
        lemma_filter_ids((n - 1) as nat, p);
        let prev = filter_ids((n - 1) as nat, p);
        if p(n - 1) {
            assert(prev.push((n - 1) as usize)[prev.len() as int] == (n - 1) as usize);
        }
        let cur = filter_ids(n, p);
        assert forall|i: int| #![trigger filter_ids(n, p).contains(i as usize)]
            0 <= i < n implies (cur.contains(i as usize) <==> p(i)) by {
            if i < n - 1 {
                assert(prev.contains(i as usize) <==> p(i));
                if cur.contains(i as usize) {
                    let k = choose|k: int| 0 <= k < cur.len() && cur[k] == i as usize;
                    if k < prev.len() {
                        assert(prev[k] == i as usize);
                    }
                }
                if p(i) {
                    let k = choose|k: int| 0 <= k < prev.len() && prev[k] == i as usize;
                    assert(cur[k] == i as usize);
                }
            } else {
                if cur.contains(i as usize) {
                    let k = choose|k: int| 0 <= k < cur.len() && cur[k] == i as usize;
                    if k < prev.len() {
                        assert(prev[k] < n - 1);
                    }
                }
            }
        }
        assert forall|a: int, b: int| 0 <= a < b < cur.len() implies cur[a] != cur[b] by {
            if b == prev.len() {
                assert(prev[a] < n - 1);
            } else {
                assert(prev[a] != prev[b]);
            }
        }
    }
}

pub open spec fn state_vectors(s: Seq<State>) -> Seq<Seq<bool>> {
    s.map_values(|st: State| st.formulas@)
}

/// The value of `f` in a state, read from its place in the closure, or for a negation from
/// the place of its operand.
pub open spec fn spec_eval_in_state(v: Seq<bool>, closure: Seq<Formula>, f: Formula) -> Option<
    bool,
> {
    match first_index(closure, f) {
        Some(idx) => Some(v[idx]),
        None => match f {
            Formula::Not(inner) => match first_index(closure, *inner) {
                Some(idx) => Some(!v[idx]),
                None => None,
            },
            _ => None,
        },
    }
}

pub open spec fn or_false(o: Option<bool>) -> bool {
    match o {
        Some(b) => b,
        None => false,
    }
}

/// The step rule of the closure formula at `idx`: `X a` now equals `a` next (when `a` has a
/// value), `l U r` now equals `r | (l & (l U r) next)`, `l R r` now equals
/// `r & (l | (l R r) next)`.
pub open spec fn step_rule(from: Seq<bool>, to: Seq<bool>, closure: Seq<Formula>, idx: int) -> bool {
    let f = closure[idx];
    match f {
        Formula::Next(inner) => match spec_eval_in_state(to, closure, *inner) {
            Some(v) => from[idx] == v,
            None => true,
        },
        Formula::Until(l, r) => from[idx] == (or_false(spec_eval_in_state(from, closure, *r)) || (
        or_false(spec_eval_in_state(from, closure, *l)) && or_false(
            spec_eval_in_state(to, closure, f),
        ))),
        Formula::Release(l, r) => from[idx] == (or_false(spec_eval_in_state(from, closure, *r)) && (
        or_false(spec_eval_in_state(from, closure, *l)) || or_false(
            spec_eval_in_state(to, closure, f),
        ))),
        _ => true,
    }
}

/// A transition between two states follows the step rule of every closure formula.
pub open spec fn spec_valid_transition(from: Seq<bool>, to: Seq<bool>, closure: Seq<Formula>) -> bool {
    forall|idx: int| 0 <= idx < closure.len() ==> #[trigger] step_rule(from, to, closure, idx)
}

/// Atomic propositions that make up the labels: variables, fireability, token counts and
/// comparisons.
pub open spec fn is_label_atom(f: Formula) -> bool {
    match f {
        Formula::Var(_) | Formula::Fireable(_) | Formula::TokenCount(_) | Formula::LessEqual(_, _)
        | Formula::GreaterEqual(_, _) | Formula::Greater(_, _) | Formula::Less(_, _) => true,
        _ => false,
    }
}

/// The values of the label atoms among the first `n` closure formulas, in closure order.
pub open spec fn label_upto(v: Seq<bool>, closure: Seq<Formula>, n: nat) -> Seq<bool>
    decreases n,
{
    if n == 0 {
        seq![]
    } else {
        let prev = label_upto(v, closure, (n - 1) as nat);
        if is_label_atom(closure[n - 1]) {
            prev.push(v[n - 1])
        } else {
            prev
        }
    }
}

/// The label of a state: the values of the label atoms of the closure, in closure order.
pub open spec fn spec_label(v: Seq<bool>, closure: Seq<Formula>) -> Seq<bool> {
    label_upto(v, closure, closure.len())
}

/// Whether the state with vector `v` accepts for the `U` formula at `idx`: the `U` formula is
/// false there, or its right operand is true.
pub open spec fn accepts_for(v: Seq<bool>, closure: Seq<Formula>, idx: int) -> bool {
    match closure[idx] {
        Formula::Until(_, right) => !v[idx] || match *right {
            Formula::Not(inner) => match first_index(closure, *inner) {
                Some(i) => !v[i],
                None => false,
            },
            _ => match first_index(closure, *right) {
                Some(i) => v[i],
                None => false,
            },
        },
        _ => false,
    }
}

/// One acceptance set for each `U` formula among the first `n` of the closure, in closure
/// order.
pub open spec fn acceptance_upto(states: Seq<Seq<bool>>, closure: Seq<Formula>, n: nat) -> Seq<
    Seq<usize>,
>
    decreases n,
{
    if n == 0 {
        seq![]
    } else {
        let prev = acceptance_upto(states, closure, (n - 1) as nat);
        if closure[n - 1] is Until {
            prev.push(filter_ids(states.len(), |s: int| accepts_for(states[s], closure, n - 1)))
        } else {
            prev
        }
    }
}

/// The acceptance sets: one for each `U` formula of the closure, or, where there is none,
/// one set of all states.
pub open spec fn spec_acceptance(states: Seq<Seq<bool>>, closure: Seq<Formula>) -> Seq<Seq<usize>> {
    let sets = acceptance_upto(states, closure, closure.len());
    if sets.len() == 0 {
        seq![filter_ids(states.len(), |s: int| true)]
    } else {
        sets
    }
}

impl GNBA {
    /// The truth vectors of the states.
    pub open spec fn vectors(&self) -> Seq<Seq<bool>> {
        state_vectors(self.states@)
    }

    /// The closure formulas.
    pub open spec fn closure_view(&self) -> Seq<Formula> {
        fviews(self.closure@)
    }

    /// The acceptance sets.
    pub open spec fn acceptance_view(&self) -> Seq<Seq<usize>> {
        self.acceptance_conditions@.map_values(|c: AcceptanceCondition| c.states@)
    }

    /// The successors of state `s`.
    pub open spec fn succ_view(&self, s: int) -> Seq<usize> {
        self.transitions@[s].transitions@
    }

    /// States are numbered by position, each holds one value per closure formula, and each
    /// state has a transition entry whose targets are states and which holds one label per
    /// target.
    pub open spec fn wf(&self) -> bool {
        &&& forall|i: int| 0 <= i < self.states@.len() ==> (#[trigger] self.states@[i]).id == i
        &&& forall|i: int|
            0 <= i < self.states@.len() ==> (#[trigger] self.states@[i]).formulas@.len()
                == self.closure@.len()
        &&& self.transitions@.len() == self.states@.len()
        &&& forall|i: int, k: int|
            0 <= i < self.transitions@.len() && 0 <= k < self.succ_view(i).len() ==> #[trigger] self.succ_view(i)[k]
                < self.states@.len()
        &&& forall|i: int|
            0 <= i < self.transitions@.len() ==> (#[trigger] self.transitions@[i]).label@.len()
                == self.transitions@[i].transitions@.len()
        &&& forall|k: int|
            0 <= k < self.initial_states@.len() ==> #[trigger] self.initial_states@[k]
                < self.states@.len()
    }

    /// The automaton that `GNBA::new` builds for `ltl`.
    pub open spec fn built_from(&self, ltl: Formula) -> bool {
        let pnf = spec_automaton_formula(ltl);
        let cl = spec_closure(pnf);
        let vs = completions(cl, seq![]);
        &&& self.wf()
        &&& self.closure_view() == cl
        &&& self.vectors() == vs
        &&& self.initial_states@ == filter_ids(
            vs.len(),
            |s: int| spec_eval_in_state(vs[s], cl, pnf) == Some(true),
        )
        &&& self.acceptance_view() == spec_acceptance(vs, cl)
        &&& forall|s: int|
            0 <= s < vs.len() ==> #[trigger] self.succ_view(s) == filter_ids(
                vs.len(),
                |t: int| spec_valid_transition(vs[s], vs[t], cl),
            )
        &&& forall|s: int, k: int|
            0 <= s < vs.len() && 0 <= k < self.succ_view(s).len() ==> #[trigger] self.transitions@[s].label@[k]@
                == spec_label(vs[s], cl)
    }
}

/// The states: one for each consistent truth vector, numbered in order.
fn generate_states(closure: &[LTL]) -> (r: Vec<State>)
    ensures
        state_vectors(r@) == completions(fviews(closure@), seq![]),
        forall|i: int| 0 <= i < r@.len() ==> (#[trigger] r@[i]).id == i,
        forall|i: int| 0 <= i < r@.len() ==> (#[trigger] r@[i]).formulas@.len() == closure@.len(),
{
    let assignments = is_consistent(closure);
    let ghost cl = fviews(closure@);
    proof {
        crate::consistency::lemma_is_consistent_exact(cl);
    }
    let mut states: Vec<State> = Vec::new();
    let mut id: usize = 0;
    while id < assignments.len()
        invariant
            id <= assignments.len(),
            states@.len() == id,
            bviews(assignments@) == completions(cl, seq![]),
            forall|v: Seq<bool>| #[trigger]
                completions(cl, seq![]).contains(v) <==> (v.len() == cl.len()
                    && crate::consistency::spec_consistent(cl, v)),
            cl == fviews(closure@),
            forall|i: int| 0 <= i < id ==> (#[trigger] states@[i]).id == i,
            forall|i: int| 0 <= i < id ==> (#[trigger] states@[i]).formulas@ == assignments@[i]@,
        decreases assignments.len() - id,
    {
        states.push(State { id, formulas: assignments[id].clone() });
        id = id + 1;
    }
    assert(state_vectors(states@) =~= bviews(assignments@));
    assert forall|i: int| 0 <= i < states@.len() implies (#[trigger] states@[i]).formulas@.len()
        == closure@.len() by {
        assert(bviews(assignments@)[i] == assignments@[i]@);
        assert(completions(cl, seq![]).contains(assignments@[i]@));
    }
    states
}

/// The value of `formula` in `state`.
pub fn eval_in_state(state: &State, closure: &[LTL], formula: &LTL) -> (r: Option<bool>)
    requires
        state.formulas@.len() == closure@.len(),
    ensures
        r == spec_eval_in_state(state.formulas@, fviews(closure@), formula@),
{
    proof {
        lemma_first_index(fviews(closure@), formula@);
        lemma_view_variant(*formula);
    }
    if let Some(idx) = find_index(closure, formula) {
        Some(state.formulas[idx])
    } else {
        match formula {
            LTL::Not(inner) => {
                proof {
                    lemma_first_index(fviews(closure@), inner@);
                }
                match find_index(closure, inner) {
                    Some(idx) => Some(!state.formulas[idx]),
                    None => None,
                }
            },
            _ => None,
        }
    }
}

/// The states in which the formula is true.
fn find_initial_states(states: &Vec<State>, formula: &LTL, closure: &[LTL]) -> (r: Vec<usize>)
    requires
        forall|i: int| 0 <= i < states@.len() ==> (#[trigger] states@[i]).id == i,
        forall|i: int|
            0 <= i < states@.len() ==> (#[trigger] states@[i]).formulas@.len() == closure@.len(),
    ensures
        r@ == filter_ids(
            states@.len(),
            |s: int|
                spec_eval_in_state(state_vectors(states@)[s], fviews(closure@), formula@) == Some(
                    true,
                ),
        ),
{
    let ghost p = |s: int|
        spec_eval_in_state(state_vectors(states@)[s], fviews(closure@), formula@) == Some(true);
    let mut initial: Vec<usize> = Vec::new();
    let mut i: usize = 0;
    while i < states.len()
        invariant
            i <= states@.len(),
            forall|j: int| 0 <= j < states@.len() ==> (#[trigger] states@[j]).id == j,
            forall|j: int|
                0 <= j < states@.len() ==> (#[trigger] states@[j]).formulas@.len()
                    == closure@.len(),
            initial@ == filter_ids(i as nat, p),
            forall|s: int|
                #[trigger] p(s) == (spec_eval_in_state(
                    state_vectors(states@)[s],
                    fviews(closure@),
                    formula@,
                ) == Some(true)),
        decreases states.len() - i,
    {
        let v = eval_in_state(&states[i], closure, formula);
        assert(state_vectors(states@)[i as int] == states@[i as int].formulas@);
        if let Some(true) = v {
            initial.push(states[i].id);
        }
        i = i + 1;
    }
    initial
}

/// Whether a transition between two states follows the step rules of the closure.
pub fn is_valid_transition(from_state: &State, to_state: &State, closure: &[LTL]) -> (r: bool)
    requires
        from_state.formulas@.len() == closure@.len(),
        to_state.formulas@.len() == closure@.len(),
    ensures
        r == spec_valid_transition(from_state.formulas@, to_state.formulas@, fviews(closure@)),
{
    let ghost cl = fviews(closure@);
    let ghost fv = from_state.formulas@;
    let ghost tv = to_state.formulas@;
    let mut idx: usize = 0;
    while idx < closure.len()
        invariant
            idx <= closure@.len(),
            cl == fviews(closure@),
            fv == from_state.formulas@,
            tv == to_state.formulas@,
            from_state.formulas@.len() == closure@.len(),
            to_state.formulas@.len() == closure@.len(),
            forall|j: int| 0 <= j < idx ==> #[trigger] step_rule(fv, tv, cl, j),
        decreases closure.len() - idx,
    {
        let formula = &closure[idx];
        assert(cl[idx as int] == formula@);
        proof {
            lemma_view_variant(*formula);
        }
        let ok = match formula {
            LTL::Next(inner) => {
                match eval_in_state(to_state, closure, inner) {
                    Some(inner_next) => from_state.formulas[idx] == inner_next,
                    None => true,
                }
            },
            LTL::Until(left, right) => {
                let left_curr = match eval_in_state(from_state, closure, left) {
                    Some(b) => b,
                    None => false,
                };
                let right_curr = match eval_in_state(from_state, closure, right) {
                    Some(b) => b,
                    None => false,
                };
                let u_curr = from_state.formulas[idx];
                let u_next = match eval_in_state(to_state, closure, formula) {
                    Some(b) => b,
                    None => false,
                };
                u_curr == (right_curr || (left_curr && u_next))
            },
            LTL::Release(left, right) => {
                let left_curr = match eval_in_state(from_state, closure, left) {
                    Some(b) => b,
                    None => false,
                };
                let right_curr = match eval_in_state(from_state, closure, right) {
                    Some(b) => b,
                    None => false,
                };
                let r_curr = from_state.formulas[idx];
                let r_next = match eval_in_state(to_state, closure, formula) {
                    Some(b) => b,
                    None => false,
                };
                r_curr == (right_curr && (left_curr || r_next))
            },
            _ => true,
        };
        assert(ok == step_rule(fv, tv, cl, idx as int));
        if !ok {
            return false;
        }
        idx = idx + 1;
    }
    true
}

/// The label of a state: which label atoms of the closure are true in it.
pub fn compute_label(state: &State, closure: &[LTL]) -> (r: Vec<bool>)
    requires
        state.formulas@.len() >= closure@.len(),
    ensures
        r@ == spec_label(state.formulas@, fviews(closure@)),
{
    let ghost cl = fviews(closure@);
    let mut label: Vec<bool> = Vec::new();
    let mut idx: usize = 0;
    while idx < closure.len()
        invariant
            idx <= closure@.len(),
            cl == fviews(closure@),
            state.formulas@.len() >= closure@.len(),
            label@ == label_upto(state.formulas@, cl, idx as nat),
        decreases closure.len() - idx,
    {
        let formula = &closure[idx];
        assert(cl[idx as int] == formula@);
        proof {
            lemma_view_variant(*formula);
        }
        match formula {
            LTL::Var(_) | LTL::Fireable(_) | LTL::TokenCount(_) | LTL::LessEqual(_, _)
            | LTL::GreaterEqual(_, _) | LTL::Greater(_, _) | LTL::Less(_, _) => {
                label.push(state.formulas[idx]);
            },
            _ => {},
        }
        idx = idx + 1;
    }
    label
}

/// Whether `state` accepts for the `U` formula at `idx` of the closure.
fn accepts_until(state: &State, closure: &[LTL], idx: usize, right: &LTL) -> (r: bool)
    requires
        state.formulas@.len() == closure@.len(),
        idx < closure@.len(),
        fviews(closure@)[idx as int] matches Formula::Until(_, rr) && *rr == right@,
    ensures
        r == accepts_for(state.formulas@, fviews(closure@), idx as int),
{
    let until_false = !state.formulas[idx];
    proof {
        lemma_view_variant(*right);
    }
    let right_true = match right {
        LTL::Not(inner) => match find_index(closure, inner) {
            Some(i) => {
                proof {
                    lemma_first_index(fviews(closure@), inner@);
                }
                !state.formulas[i]
            },
            None => false,
        },
        _ => match find_index(closure, right) {
            Some(i) => {
                proof {
                    lemma_first_index(fviews(closure@), right@);
                }
                state.formulas[i]
            },
            None => false,
        },
    };
    until_false || right_true
}

/// The acceptance sets: for each `U` formula of the closure, the states that accept for it.
fn generate_acceptance_conditions(states: &Vec<State>, closure: &[LTL]) -> (r: Vec<
    AcceptanceCondition,
>)
    requires
        forall|i: int| 0 <= i < states@.len() ==> (#[trigger] states@[i]).id == i,
        forall|i: int|
            0 <= i < states@.len() ==> (#[trigger] states@[i]).formulas@.len() == closure@.len(),
    ensures
        r@.map_values(|c: AcceptanceCondition| c.states@) == acceptance_upto(
            state_vectors(states@),
            fviews(closure@),
            closure@.len(),
        ),
{
    let ghost cl = fviews(closure@);
    let ghost vs = state_vectors(states@);
    let mut conditions: Vec<AcceptanceCondition> = Vec::new();
    let mut idx: usize = 0;
    while idx < closure.len()
        invariant
            idx <= closure@.len(),
            cl == fviews(closure@),
            vs == state_vectors(states@),
            forall|i: int| 0 <= i < states@.len() ==> (#[trigger] states@[i]).id == i,
            forall|i: int|
                0 <= i < states@.len() ==> (#[trigger] states@[i]).formulas@.len()
                    == closure@.len(),
            conditions@.map_values(|c: AcceptanceCondition| c.states@) == acceptance_upto(
                vs,
                cl,
                idx as nat,
            ),
        decreases closure.len() - idx,
    {
        let formula = &closure[idx];
        assert(cl[idx as int] == formula@);
        proof {
            lemma_view_variant(*formula);
        }
        if let LTL::Until(_left, right) = formula {
            let ghost p = |s: int| accepts_for(vs[s], cl, idx as int);
            let mut accepting: Vec<usize> = Vec::new();
            let mut s: usize = 0;
            while s < states.len()
                invariant
                    s <= states@.len(),
                    idx < closure@.len(),
                    cl == fviews(closure@),
                    vs == state_vectors(states@),
                    cl[idx as int] matches Formula::Until(_, rr) && *rr == right@,
                    forall|i: int| 0 <= i < states@.len() ==> (#[trigger] states@[i]).id == i,
                    forall|i: int|
                        0 <= i < states@.len() ==> (#[trigger] states@[i]).formulas@.len()
                            == closure@.len(),
                    accepting@ == filter_ids(s as nat, p),
                    forall|t: int| #[trigger] p(t) == accepts_for(vs[t], cl, idx as int),
                decreases states.len() - s,
            {
                assert(vs[s as int] == states@[s as int].formulas@);
                if accepts_until(&states[s], closure, idx, right) {
                    accepting.push(states[s].id);
                }
                s = s + 1;
            }
            let ghost before = conditions@.map_values(|c: AcceptanceCondition| c.states@);
            conditions.push(AcceptanceCondition { states: accepting });
            assert(conditions@.map_values(|c: AcceptanceCondition| c.states@) =~= before.push(
                filter_ids(vs.len(), p),
            ));
        } else {
            assert(!(cl[idx as int] is Until));
        }
        idx = idx + 1;
    }
    conditions
}

/// How many of the first `n` closure formulas are `U` formulas.
pub open spec fn until_count(closure: Seq<Formula>, n: nat) -> nat
    decreases n,
{
    if n == 0 {
        0
    } else {
        until_count(closure, (n - 1) as nat) + if closure[n - 1] is Until {
            1nat
        } else {
            0nat
        }
    }
}

pub(crate) proof fn lemma_acceptance_upto_len(states: Seq<Seq<bool>>, closure: Seq<Formula>, n: nat)
    ensures
        acceptance_upto(states, closure, n).len() == until_count(closure, n),
    decreases n,
{
    if n > 0 {
        lemma_acceptance_upto_len(states, closure, (n - 1) as nat);
    }
}

/// A GNBA built for a formula numbers its states by position, gives each one value per
/// closure formula, no two states the same values, has one transition entry per state whose
/// targets are states and whose labels are the state's label, initial states among its
/// states, and one acceptance set per `U` formula of the closure (one set where there is
/// none).
pub proof fn lemma_gnba_shape(g: GNBA, f: Formula)
    requires
        g.built_from(f),
    ensures
        forall|i: int| 0 <= i < g.states@.len() ==> (#[trigger] g.states@[i]).id == i,
        forall|i: int| 0 <= i < g.states@.len() ==> (#[trigger] g.states@[i]).formulas@.len() == g.closure@.len(),
        g.vectors().no_duplicates(),
        g.transitions@.len() == g.states@.len(),
        forall|i: int, k: int|
            0 <= i < g.transitions@.len() && 0 <= k < g.succ_view(i).len() ==> #[trigger] g.succ_view(i)[k]
                < g.states@.len(),
        forall|k: int| 0 <= k < g.initial_states@.len() ==> #[trigger] g.initial_states@[k] < g.states@.len(),
        g.acceptance_view().len() == if until_count(g.closure_view(), g.closure_view().len()) == 0 {
            1
        } else {
            until_count(g.closure_view(), g.closure_view().len())
        },
{
    let cl = g.closure_view();
    crate::consistency::lemma_is_consistent_exact(cl);
    lemma_acceptance_upto_len(g.vectors(), cl, cl.len());
}

/// Whether the automaton formula of `ltl` has at most `usize::MAX` nodes, as `GNBA::new`
/// requires.
pub fn gnba_fits(ltl: &LTL) -> (r: bool)
    ensures
        r == (spec_size(spec_automaton_formula(ltl@)) <= usize::MAX),
{
    let pnf = automaton_formula(ltl);
    pnf.checked_size().is_some()
}

/// How many of the formulas of `closure` are `U` formulas.
pub fn count_untils(closure: &[LTL]) -> (r: usize)
    ensures
        r == until_count(fviews(closure@), closure@.len() as nat),
{
    let ghost cl = fviews(closure@);
    let mut c: usize = 0;
    let mut i: usize = 0;
    while i < closure.len()
        invariant
            i <= closure@.len(),
            cl == fviews(closure@),
            c == until_count(cl, i as nat),
            c <= i,
        decreases closure.len() - i,
    {
        proof {
            lemma_view_variant(closure@[i as int]);
        }
        if let LTL::Until(_, _) = &closure[i] {
            c = c + 1;
        }
        i = i + 1;
    }
    c
}

impl GNBA {
    /// The GNBA for `ltl`, where its automaton formula has at most `usize::MAX` nodes;
    /// `None` where it has more.
    pub fn try_new(ltl: &LTL) -> (r: Option<GNBA>)
        ensures
            r is Some <==> spec_size(spec_automaton_formula(ltl@)) <= usize::MAX,
            r matches Some(g) ==> g.built_from(ltl@) && g.vectors().no_duplicates(),
            r matches Some(g) ==> (language_exact(ltl@) ==> forall|w: spec_fn(nat, Formula) -> bool|
                #[trigger] accepts_trace(g, w) <==> holds(ltl@, w)(0)),
    {
        if gnba_fits(ltl) {
            Some(GNBA::new(ltl))
        } else {
            None
        }
    }

    /// A GNBA for `ltl`: over the closure of its automaton formula (the positive normal form
    /// with every `F`, `G`, `W` and `M` rewritten by `U` and `R`), with one state per
    /// consistent truth vector, the states where the formula holds as initial states, one
    /// acceptance set per `U` formula, and a transition wherever the step rules allow one.
    /// Where the automaton formula is exact for `ltl` (see `language_exact`), the GNBA accepts
    /// exactly the traces that satisfy `ltl` at their first position.
    pub fn new(ltl: &LTL) -> (r: GNBA)
        requires
            spec_size(spec_automaton_formula(ltl@)) <= usize::MAX,
        ensures
            r.built_from(ltl@),
            r.vectors().no_duplicates(),
            r.acceptance_view().len() == if until_count(r.closure_view(), r.closure_view().len()) == 0 {
                1
            } else {
                until_count(r.closure_view(), r.closure_view().len())
            },
            language_exact(ltl@) ==> forall|w: spec_fn(nat, Formula) -> bool|
                #[trigger] accepts_trace(r, w) <==> holds(ltl@, w)(0),
    {
        let pnf = automaton_formula(ltl);
        let closure = compute_closure(&pnf);
        let states = generate_states(closure.as_slice());
        let initial_states = find_initial_states(&states, &pnf, closure.as_slice());
        let mut acceptance_conditions = generate_acceptance_conditions(&states, closure.as_slice());
        let ghost cl = fviews(closure@);
        let ghost vs = state_vectors(states@);
        let nstates = states.len();
        proof {
            assert(vs.len() == nstates);
            lemma_filter_ids(vs.len(), |s: int| true);
        }
        if acceptance_conditions.len() == 0 {
            let mut all: Vec<usize> = Vec::new();
            let mut i: usize = 0;
            while i < states.len()
                invariant
                    i <= states@.len(),
                    forall|j: int| 0 <= j < states@.len() ==> (#[trigger] states@[j]).id == j,
                    all@ == filter_ids(i as nat, |s: int| true),
                decreases states.len() - i,
            {
                all.push(states[i].id);
                i = i + 1;
            }
            acceptance_conditions.push(AcceptanceCondition { states: all });
            assert(acceptance_conditions@.map_values(|c: AcceptanceCondition| c.states@) =~= seq![
                filter_ids(vs.len(), |s: int| true),
            ]);
        }
        let mut gnba = GNBA {
            closure,
            states,
            transitions: Vec::new(),
            initial_states,
            acceptance_conditions,
        };
        proof {
            lemma_filter_ids(
                vs.len(),
                |s: int| spec_eval_in_state(vs[s], cl, pnf@) == Some(true),
            );
        }
        let transitions = gnba.generate_transitions();
        gnba.transitions = transitions;
        proof {
            assert forall|s: int, k: int|
                0 <= s < gnba.transitions@.len() && 0 <= k < gnba.succ_view(s).len() implies #[trigger] gnba.succ_view(s)[k]
                < gnba.states@.len() by {
                lemma_filter_ids(vs.len(), |t: int| spec_valid_transition(vs[s], vs[t], cl));
            }
            assert forall|k: int| 0 <= k < gnba.initial_states@.len() implies #[trigger] gnba.initial_states@[k]
                < gnba.states@.len() by {}
        }
        proof {
            lemma_gnba_shape(gnba, ltl@);
            if language_exact(ltl@) {
                assert forall|w: spec_fn(nat, Formula) -> bool| #[trigger] accepts_trace(gnba, w) <==> holds(ltl@, w)(0) by {
                    lemma_gnba_language(gnba, ltl@, w);
                }
            }
        }
        gnba
    }

    fn generate_transitions(&self) -> (r: Vec<Transitions>)
        requires
            forall|i: int| 0 <= i < self.states@.len() ==> (#[trigger] self.states@[i]).id == i,
            forall|i: int|
                0 <= i < self.states@.len() ==> (#[trigger] self.states@[i]).formulas@.len()
                    == self.closure@.len(),
        ensures
            r@.len() == self.states@.len(),
            forall|s: int|
                0 <= s < r@.len() ==> #[trigger] r@[s].transitions@ == filter_ids(
                    self.states@.len(),
                    |t: int| spec_valid_transition(self.vectors()[s], self.vectors()[t], self.closure_view()),
                ),
            forall|s: int|
                0 <= s < r@.len() ==> (#[trigger] r@[s]).label@.len() == r@[s].transitions@.len(),
            forall|s: int, k: int|
                0 <= s < r@.len() && 0 <= k < r@[s].label@.len() ==> #[trigger] r@[s].label@[k]@
                    == spec_label(self.vectors()[s], self.closure_view()),
    {
        let ghost vs = self.vectors();
        let ghost cl = self.closure_view();
        let n = self.states.len();
        let mut transitions: Vec<Transitions> = Vec::new();
        let mut from_idx: usize = 0;
        while from_idx < n
            invariant
                n == self.states@.len(),
                from_idx <= n,
                vs == self.vectors(),
                cl == self.closure_view(),
                forall|i: int| 0 <= i < self.states@.len() ==> (#[trigger] self.states@[i]).id == i,
                forall|i: int|
                    0 <= i < self.states@.len() ==> (#[trigger] self.states@[i]).formulas@.len()
                        == self.closure@.len(),
                transitions@.len() == from_idx,
                forall|s: int|
                    0 <= s < from_idx ==> #[trigger] transitions@[s].transitions@ == filter_ids(
                        n as nat,
                        |t: int| spec_valid_transition(vs[s], vs[t], cl),
                    ),
                forall|s: int|
                    0 <= s < from_idx ==> (#[trigger] transitions@[s]).label@.len()
                        == transitions@[s].transitions@.len(),
                forall|s: int, k: int|
                    0 <= s < from_idx && 0 <= k < transitions@[s].label@.len() ==> #[trigger] transitions@[s].label@[k]@
                        == spec_label(vs[s], cl),
            decreases n - from_idx,
        {
            let label = self.label(from_idx);
            let ghost p = |t: int| spec_valid_transition(vs[from_idx as int], vs[t], cl);
            let mut targets: Vec<usize> = Vec::new();
            let mut labels: Vec<Vec<bool>> = Vec::new();
            let mut to_idx: usize = 0;
            while to_idx < n
                invariant
                    n == self.states@.len(),
                    from_idx < n,
                    to_idx <= n,
                    vs == self.vectors(),
                    cl == self.closure_view(),
                    forall|i: int| 0 <= i < self.states@.len() ==> (#[trigger] self.states@[i]).id == i,
                    forall|i: int|
                        0 <= i < self.states@.len() ==> (#[trigger] self.states@[i]).formulas@.len()
                            == self.closure@.len(),
                    label@ == spec_label(vs[from_idx as int], cl),
                    forall|t: int| #[trigger] p(t) == spec_valid_transition(vs[from_idx as int], vs[t], cl),
                    targets@ == filter_ids(to_idx as nat, p),
                    labels@.len() == targets@.len(),
                    forall|k: int| 0 <= k < labels@.len() ==> #[trigger] labels@[k]@ == label@,
                decreases n - to_idx,
            {
                assert(vs[from_idx as int] == self.states@[from_idx as int].formulas@);
                assert(vs[to_idx as int] == self.states@[to_idx as int].formulas@);
                if is_valid_transition(&self.states[from_idx], &self.states[to_idx], self.closure.as_slice()) {
                    targets.push(to_idx);
                    labels.push(label.clone());
                }
                to_idx = to_idx + 1;
            }
            transitions.push(Transitions { transitions: targets, label: labels });
            from_idx = from_idx + 1;
        }
        transitions
    }

    /// The successors of a state.
    pub fn successors(&self, state_id: usize) -> (r: &[usize])
        requires
            self.wf(),
            state_id < self.states@.len(),
        ensures
            r@ == self.succ_view(state_id as int),
    {
        self.transitions[state_id].transitions.as_slice()
    }

    /// Whether a state belongs to some acceptance set.
    pub fn is_accepting(&self, state_id: usize) -> (r: bool)
        ensures
            r == exists|k: int|
                0 <= k < self.acceptance_view().len() && #[trigger] self.acceptance_view()[k].contains(
                    state_id,
                ),
    {
        let mut k: usize = 0;
        while k < self.acceptance_conditions.len()
            invariant
                k <= self.acceptance_conditions@.len(),
                forall|j: int| 0 <= j < k ==> !#[trigger] self.acceptance_view()[j].contains(state_id),
            decreases self.acceptance_conditions.len() - k,
        {
            let cond = &self.acceptance_conditions[k];
            assert(self.acceptance_view()[k as int] == cond.states@);
            let mut i: usize = 0;
            while i < cond.states.len()
                invariant
                    i <= cond.states@.len(),
                    k < self.acceptance_conditions@.len(),
                    self.acceptance_view()[k as int] == cond.states@,
                    forall|j: int| 0 <= j < k ==> !#[trigger] self.acceptance_view()[j].contains(
                        state_id,
                    ),
                    forall|j: int| 0 <= j < i ==> cond.states@[j] != state_id,
                decreases cond.states.len() - i,
            {
                if cond.states[i] == state_id {
                    assert(self.acceptance_view()[k as int][i as int] == state_id);
                    assert(self.acceptance_view()[k as int].contains(state_id));
                    return true;
                }
                i = i + 1;
            }
            assert(!self.acceptance_view()[k as int].contains(state_id));
            k = k + 1;
        }
        false
    }

    /// The label of a state.
    pub fn label(&self, state_id: usize) -> (r: Vec<bool>)
        requires
            state_id < self.states@.len(),
            self.states@[state_id as int].formulas@.len() >= self.closure@.len(),
        ensures
            r@ == spec_label(self.vectors()[state_id as int], self.closure_view()),
    {
        compute_label(&self.states[state_id], self.closure.as_slice())
    }
}

} // verus!
