use vstd::prelude::*;
use vstd::string::*;

use crate::builder::{net_view, spec_build, BuilderView, PetriNetBuilder};
use crate::counting::{lemma_distinct_markings, marking_space};
use crate::petri_net::PetriNet;
use crate::text::{decimal, push_decimal, push_text};

verus! {

/// Where a philosopher is: thinking, holding one fork (taken from the left or the right), or
/// eating with both.
#[derive(Clone, Copy, PartialEq, Eq, Structural, Debug, Hash)]
pub enum Stage {
    Thinking,
    InbetweenLeft,
    InbetweenRight,
    Eating,
}

/// Which fork a philosopher may take first.
#[derive(Clone, Copy, PartialEq, Eq, Structural, Debug, Hash)]
pub struct PhilosopherConfiguration {
    pub allowed_left: bool,
    pub allowed_right: bool,
}

/// A philosopher at a round table: its left fork has its own number, its right fork the next.
#[derive(Clone, Copy, PartialEq, Eq, Structural, Debug, Hash)]
pub struct Philosopher {
    pub id: usize,
    pub stage: Stage,
    pub fork_left: usize,
    pub fork_right: usize,
    pub configuration: PhilosopherConfiguration,
}

/// The philosophers and which forks are taken.
pub type ReachableState = (Vec<Philosopher>, Vec<bool>);

/// Taking the left fork: first when allowed to start left, second after starting right.
pub open spec fn left_step(p: Philosopher, forks: Seq<bool>) -> Option<(Philosopher, Seq<bool>)> {
    if p.configuration.allowed_left && p.stage == Stage::Thinking && !forks[p.fork_left as int] {
        Some((Philosopher { stage: Stage::InbetweenLeft, ..p }, forks.update(p.fork_left as int, true)))
    } else if p.configuration.allowed_right && p.stage == Stage::InbetweenRight && !forks[p.fork_left as int] {
        Some((Philosopher { stage: Stage::Eating, ..p }, forks.update(p.fork_left as int, true)))
    } else {
        None
    }
}

/// Taking the right fork: second after starting left, first when allowed to start right.
pub open spec fn right_step(p: Philosopher, forks: Seq<bool>) -> Option<(Philosopher, Seq<bool>)> {
    if p.configuration.allowed_left && p.stage == Stage::InbetweenLeft && !forks[p.fork_right as int] {
        Some((Philosopher { stage: Stage::Eating, ..p }, forks.update(p.fork_right as int, true)))
    } else if p.configuration.allowed_right && p.stage == Stage::Thinking && !forks[p.fork_right as int] {
        Some((Philosopher { stage: Stage::InbetweenRight, ..p }, forks.update(p.fork_right as int, true)))
    } else {
        None
    }
}

/// Putting both forks down after eating.
pub open spec fn down_step(p: Philosopher, forks: Seq<bool>) -> Option<(Philosopher, Seq<bool>)> {
    if p.stage == Stage::Eating {
        Some(
            (
                Philosopher { stage: Stage::Thinking, ..p },
                forks.update(p.fork_left as int, false).update(p.fork_right as int, false),
            ),
        )
    } else {
        None
    }
}

/// A table state as values.
pub type TableState = (Seq<Philosopher>, Seq<bool>);

/// The state after philosopher `i` takes a step, if the step is possible.
pub open spec fn apply_at(st: TableState, i: int, step: Option<(Philosopher, Seq<bool>)>) -> Seq<TableState> {
    match step {
        Some(x) => seq![(st.0.update(i, x.0), x.1)],
        None => seq![],
    }
}

/// The states one step leads to: for each philosopher in order, putting forks down, taking the
/// left fork, taking the right fork.
pub open spec fn table_moves(st: TableState, n: nat) -> Seq<TableState>
    decreases n,
{
    if n == 0 {
        seq![]
    } else {
        let i = n - 1;
        let p = st.0[i];
        table_moves(st, (n - 1) as nat) + apply_at(st, i, down_step(p, st.1)) + apply_at(st, i, left_step(p, st.1))
            + apply_at(st, i, right_step(p, st.1))
    }
}

/// The table at the start: everyone thinking, no fork taken.
pub open spec fn initial_table(n: nat, configs: Seq<PhilosopherConfiguration>) -> TableState {
    (
        Seq::new(
            n,
            |i: int| Philosopher {
                id: i as usize,
                stage: Stage::Thinking,
                fork_left: i as usize,
                fork_right: ((i + 1) % (n as int)) as usize,
                configuration: configs[i],
            },
        ),
        Seq::new(n, |i: int| false),
    )
}

/// `p` is a run of steps from the start.
pub open spec fn table_path(n: nat, configs: Seq<PhilosopherConfiguration>, p: Seq<TableState>) -> bool {
    &&& p.len() >= 1
    &&& p[0] == initial_table(n, configs)
    &&& forall|k: int| 0 <= k < p.len() - 1 ==> table_moves(p[k], n).contains(#[trigger] p[k + 1])
}

/// A state reachable from the start.
pub open spec fn table_reachable(n: nat, configs: Seq<PhilosopherConfiguration>, st: TableState) -> bool {
    exists|p: Seq<TableState>| #[trigger] table_path(n, configs, p) && p.last() == st
}

/// The states of `s` where no step is possible, in order.
pub open spec fn stuck_states(n: nat, s: Seq<TableState>) -> Seq<TableState>
    decreases s.len(),
{
    if s.len() == 0 {
        seq![]
    } else {
        let p = stuck_states(n, s.drop_last());
        if table_moves(s.last(), n).len() == 0 {
            p.push(s.last())
        } else {
            p
        }
    }
}

pub open spec fn table_view(st: ReachableState) -> TableState {
    (st.0@, st.1@)
}

pub open spec fn table_views(s: Seq<ReachableState>) -> Seq<TableState> {
    s.map_values(|st: ReachableState| table_view(st))
}

/// The philosophers keep their numbers, forks and configurations; only their stages and the
/// forks change.
pub open spec fn shaped(n: nat, configs: Seq<PhilosopherConfiguration>, st: TableState) -> bool {
    &&& st.0.len() == n
    &&& st.1.len() == n
    &&& forall|i: int|
        0 <= i < n ==> (#[trigger] st.0[i]).id == i && st.0[i].fork_left == i && st.0[i].fork_right == (i + 1) % (
        n as int) && st.0[i].configuration == configs[i]
}

impl Philosopher {
    /// A thinking philosopher with its left fork numbered as itself and its right fork the
    /// next one round the table.
    pub fn new(id: usize, n: usize, configuration: PhilosopherConfiguration) -> (r: Self)
        requires
            id < n,
        ensures
            r == (Philosopher {
                id,
                stage: Stage::Thinking,
                fork_left: id,
                fork_right: ((id + 1) % (n as int)) as usize,
                configuration,
            }),
    {
        Philosopher { id, stage: Stage::Thinking, fork_left: id, fork_right: (id + 1) % n, configuration }
    }

    /// Takes the left fork where allowed and free.
    pub fn pick_up_left(&mut self, forks: &mut Vec<bool>) -> (r: bool)
        requires
            old(self).fork_left < old(forks)@.len(),
        ensures
            r == (left_step(*old(self), old(forks)@) is Some),
            r ==> (*final(self), final(forks)@) == left_step(*old(self), old(forks)@)->Some_0,
            !r ==> *final(self) == *old(self) && final(forks)@ == old(forks)@,
    {
        if self.configuration.allowed_left && self.stage == Stage::Thinking && !forks[self.fork_left] {
            forks.set(self.fork_left, true);
            self.stage = Stage::InbetweenLeft;
            return true;
        }
        if self.configuration.allowed_right && self.stage == Stage::InbetweenRight && !forks[self.fork_left] {
            forks.set(self.fork_left, true);
            self.stage = Stage::Eating;
            return true;
        }
        false
    }

    /// Takes the right fork where allowed and free.
    pub fn pick_up_right(&mut self, forks: &mut Vec<bool>) -> (r: bool)
        requires
            old(self).fork_right < old(forks)@.len(),
        ensures
            r == (right_step(*old(self), old(forks)@) is Some),
            r ==> (*final(self), final(forks)@) == right_step(*old(self), old(forks)@)->Some_0,
            !r ==> *final(self) == *old(self) && final(forks)@ == old(forks)@,
    {
        if self.configuration.allowed_left && self.stage == Stage::InbetweenLeft && !forks[self.fork_right] {
            forks.set(self.fork_right, true);
            self.stage = Stage::Eating;
            return true;
        }
        if self.configuration.allowed_right && self.stage == Stage::Thinking && !forks[self.fork_right] {
            forks.set(self.fork_right, true);
            self.stage = Stage::InbetweenRight;
            return true;
        }
        false
    }

    /// Puts both forks down after eating.
    pub fn put_down_forks(&mut self, forks: &mut Vec<bool>) -> (r: bool)
        requires
            old(self).fork_left < old(forks)@.len(),
            old(self).fork_right < old(forks)@.len(),
        ensures
            r == (down_step(*old(self), old(forks)@) is Some),
            r ==> (*final(self), final(forks)@) == down_step(*old(self), old(forks)@)->Some_0,
            !r ==> *final(self) == *old(self) && final(forks)@ == old(forks)@,
    {
        if self.stage != Stage::Eating {
            return false;
        }
        forks.set(self.fork_left, false);
        forks.set(self.fork_right, false);
        self.stage = Stage::Thinking;
        true
    }
}

fn copy_philosophers(v: &Vec<Philosopher>) -> (r: Vec<Philosopher>)
    ensures
        r@ == v@,
{
    let mut r: Vec<Philosopher> = Vec::new();
    let mut i: usize = 0;
    while i < v.len()
        invariant
            i <= v@.len(),
            r@ == v@.take(i as int),
        decreases v.len() - i,
    {
        r.push(v[i]);
        assert(r@ =~= v@.take(i + 1));
        i = i + 1;
    }
    assert(v@.take(v@.len() as int) =~= v@);
    r
}

fn copy_forks(v: &Vec<bool>) -> (r: Vec<bool>)
    ensures
        r@ == v@,
{
    let mut r: Vec<bool> = Vec::new();
    let mut i: usize = 0;
    while i < v.len()
        invariant
            i <= v@.len(),
            r@ == v@.take(i as int),
        decreases v.len() - i,
    {
        r.push(v[i]);
        assert(r@ =~= v@.take(i + 1));
        i = i + 1;
    }
    assert(v@.take(v@.len() as int) =~= v@);
    r
}

fn same_state(a: &ReachableState, b: &ReachableState) -> (r: bool)
    ensures
        r == (table_view(*a) == table_view(*b)),
{
    if a.0.len() != b.0.len() || a.1.len() != b.1.len() {
        return false;
    }
    let mut i: usize = 0;
    while i < a.0.len()
        invariant
            a.0@.len() == b.0@.len(),
            i <= a.0@.len(),
            forall|j: int| 0 <= j < i ==> a.0@[j] == b.0@[j],
        decreases a.0.len() - i,
    {
        if a.0[i] != b.0[i] {
            return false;
        }
        i = i + 1;
    }
    let mut i: usize = 0;
    while i < a.1.len()
        invariant
            a.1@.len() == b.1@.len(),
            a.0@ == b.0@,
            i <= a.1@.len(),
            forall|j: int| 0 <= j < i ==> a.1@[j] == b.1@[j],
        decreases a.1.len() - i,
    {
        if a.1[i] != b.1[i] {
            return false;
        }
        i = i + 1;
    }
    assert(a.0@ =~= b.0@);
    assert(a.1@ =~= b.1@);
    true
}

fn contains_state(states: &Vec<ReachableState>, st: &ReachableState) -> (r: bool)
    ensures
        r == table_views(states@).contains(table_view(*st)),
{
    let mut i: usize = 0;
    while i < states.len()
        invariant
            i <= states@.len(),
            forall|j: int| 0 <= j < i ==> table_view(states@[j]) != table_view(*st),
        decreases states.len() - i,
    {
        if same_state(&states[i], st) {
            assert(table_views(states@)[i as int] == table_view(*st));
            return true;
        }
        i = i + 1;
    }
    proof {
        if table_views(states@).contains(table_view(*st)) {
            let j = choose|j: int| 0 <= j < table_views(states@).len() && table_views(states@)[j] == table_view(*st);
            assert(table_view(states@[j]) == table_view(*st));
        }
    }
    false
}

/// Each stage as a number.
pub open spec fn stage_code(s: Stage) -> u32 {
    match s {
        Stage::Thinking => 0,
        Stage::InbetweenLeft => 1,
        Stage::InbetweenRight => 2,
        Stage::Eating => 3,
    }
}

/// A table state as numbers: the stages, then the forks.
pub open spec fn table_code(st: TableState) -> Seq<u32> {
    st.0.map_values(|p: Philosopher| stage_code(p.stage)) + st.1.map_values(|b: bool| if b { 1u32 } else { 0u32 })
}

proof fn lemma_code_injective(n: nat, configs: Seq<PhilosopherConfiguration>, a: TableState, b: TableState)
    requires
        shaped(n, configs, a),
        shaped(n, configs, b),
        table_code(a) == table_code(b),
    ensures
        a == b,
{
    assert forall|i: int| 0 <= i < n implies a.0[i] == b.0[i] by {
        assert(table_code(a)[i] == stage_code(a.0[i].stage));
        assert(table_code(b)[i] == stage_code(b.0[i].stage));
        assert(a.0[i].stage == b.0[i].stage);
    }
    assert forall|i: int| 0 <= i < n implies a.1[i] == b.1[i] by {
        assert(table_code(a)[n + i] == (if a.1[i] { 1u32 } else { 0u32 }));
        assert(table_code(b)[n + i] == (if b.1[i] { 1u32 } else { 0u32 }));
    }
    assert(a.0 =~= b.0);
    assert(a.1 =~= b.1);
}

proof fn lemma_states_bounded(n: nat, configs: Seq<PhilosopherConfiguration>, s: Seq<TableState>)
    requires
        s.no_duplicates(),
        forall|k: int| 0 <= k < s.len() ==> shaped(n, configs, #[trigger] s[k]),
    ensures
        s.len() <= marking_space(2 * n),
{
    let codes = s.map_values(|st: TableState| table_code(st));
    assert forall|i: int, j: int| 0 <= i < codes.len() && 0 <= j < codes.len() && i != j implies codes[i] != codes[j] by {
        if codes[i] == codes[j] {
            lemma_code_injective(n, configs, s[i], s[j]);
        }
    }
    assert forall|i: int| 0 <= i < codes.len() implies (#[trigger] codes[i]).len() == 2 * n by {}
    lemma_distinct_markings(codes, 2 * n);
}

proof fn lemma_moves_shaped(n: nat, configs: Seq<PhilosopherConfiguration>, st: TableState, k: nat)
    requires
        shaped(n, configs, st),
        k <= n,
    ensures
        forall|j: int| 0 <= j < table_moves(st, k).len() ==> shaped(n, configs, #[trigger] table_moves(st, k)[j]),
    decreases k,
{
    if k > 0 {
        lemma_moves_shaped(n, configs, st, (k - 1) as nat);
        let i = k - 1;
        let p = st.0[i];
        let steps = seq![down_step(p, st.1), left_step(p, st.1), right_step(p, st.1)];
        assert forall|j: int| 0 <= j < table_moves(st, k).len() implies shaped(n, configs, #[trigger] table_moves(st, k)[j]) by {
            let prev = table_moves(st, (k - 1) as nat);
            if j >= prev.len() {
                let x = table_moves(st, k)[j];
                assert forall|m: int| 0 <= m < n implies (#[trigger] x.0[m]).id == m && x.0[m].fork_left == m
                    && x.0[m].fork_right == (m + 1) % (n as int) && x.0[m].configuration == configs[m] by {
                    assert(st.0[m].id == m);
                }
            }
        }
    }
}

/// The states reachable from the start and those of them where nobody can move, found by a
/// breadth-first search; each list holds each state once.
pub fn compute_reachable_states_and_deadlocks(
    n: usize,
    configurations: Vec<PhilosopherConfiguration>,
) -> (r: (Vec<ReachableState>, Vec<ReachableState>))
    requires
        configurations@.len() >= n,
    ensures
        table_views(r.0@).no_duplicates(),
        forall|st: TableState| table_views(r.0@).contains(st) <==> table_reachable(n as nat, configurations@, st),
        table_views(r.1@) == stuck_states(n as nat, table_views(r.0@)),
{
    let ghost cfg = configurations@;
    let ghost nn = n as nat;
    let mut philosophers: Vec<Philosopher> = Vec::new();
    let mut i: usize = 0;
    while i < n
        invariant
            i <= n,
            configurations@.len() >= n,
            cfg == configurations@,
            philosophers@ == initial_table(n as nat, cfg).0.take(i as int),
        decreases n - i,
    {
        philosophers.push(Philosopher::new(i, n, configurations[i]));
        assert(philosophers@ =~= initial_table(n as nat, cfg).0.take(i + 1));
        i = i + 1;
    }
    let mut forks: Vec<bool> = Vec::new();
    let mut i: usize = 0;
    while i < n
        invariant
            i <= n,
            forks@ == Seq::new(i as nat, |j: int| false),
        decreases n - i,
    {
        forks.push(false);
        assert(forks@ =~= Seq::new((i + 1) as nat, |j: int| false));
        i = i + 1;
    }
    assert(philosophers@ =~= initial_table(n as nat, cfg).0);
    assert(forks@ =~= initial_table(n as nat, cfg).1);
    let ghost init = initial_table(n as nat, cfg);
    let mut states: Vec<ReachableState> = Vec::new();
    let mut deadlocks: Vec<ReachableState> = Vec::new();
    let mut queue: Vec<ReachableState> = Vec::new();
    queue.push((philosophers, forks));
    proof {
        assert(table_path(nn, cfg, seq![init]));
        assert(shaped(nn, cfg, init));
    }
    let mut head: usize = 0;
    while head < queue.len()
        invariant
            nn == n,
            cfg == configurations@,
            configurations@.len() >= n,
            head <= queue@.len(),
            table_views(states@).no_duplicates(),
            table_views(states@).len() <= marking_space(2 * nn),
            forall|k: int| 0 <= k < queue@.len() ==> table_reachable(nn, cfg, #[trigger] table_view(queue@[k])),
            forall|k: int| 0 <= k < queue@.len() ==> shaped(nn, cfg, #[trigger] table_view(queue@[k])),
            forall|k: int| 0 <= k < states@.len() ==> table_reachable(nn, cfg, #[trigger] table_view(states@[k])),
            forall|k: int| 0 <= k < states@.len() ==> shaped(nn, cfg, #[trigger] table_view(states@[k])),
            queue@.len() >= 1,
            table_view(queue@[0]) == init,
            forall|k: int| 0 <= k < head ==> table_views(states@).contains(#[trigger] table_view(queue@[k])),
            forall|k: int, t: TableState|
                0 <= k < states@.len() && #[trigger] table_moves(table_view(states@[k]), nn).contains(t) ==> exists|q: int|
                    0 <= q < queue@.len() && table_view(queue@[q]) == t,
            table_views(deadlocks@) == stuck_states(nn, table_views(states@)),
        decreases marking_space(2 * nn) - table_views(states@).len(), queue@.len() - head,
    {
        let current = &queue[head];
        let ghost cur = table_view(*current);
        if contains_state(&states, current) {
            head = head + 1;
            continue;
        }
        let philosophers = copy_philosophers(&current.0);
        let forks = copy_forks(&current.1);
        let ghost q0 = queue@;
        let q0_len = queue.len();
        let mut i: usize = 0;
        while i < n
            invariant
                nn == n,
                cfg == configurations@,
                i <= n,
                philosophers@ == cur.0,
                forks@ == cur.1,
                shaped(nn, cfg, cur),
                table_reachable(nn, cfg, cur),
                queue@.len() == q0.len() + table_moves(cur, i as nat).len(),
                forall|k: int| 0 <= k < q0.len() ==> #[trigger] queue@[k] == q0[k],
                forall|k: int| 0 <= k < table_moves(cur, i as nat).len() ==> table_view(#[trigger] queue@[q0.len() + k]) == table_moves(cur, i as nat)[k],
                q0_len == q0.len(),
            decreases n - i,
        {
            let ghost before_len = queue@.len();
            let ghost tm = table_moves(cur, i as nat);
            assert(cur.0[i as int].fork_left == i && cur.0[i as int].fork_right == (i + 1) % (n as int));
            let mut p = philosophers[i];
            let mut new_forks = copy_forks(&forks);
            if p.put_down_forks(&mut new_forks) {
                let mut next = copy_philosophers(&philosophers);
                next.set(i, p);
                queue.push((next, new_forks));
            }
            let mut p = philosophers[i];
            let mut new_forks = copy_forks(&forks);
            if p.pick_up_left(&mut new_forks) {
                let mut next = copy_philosophers(&philosophers);
                next.set(i, p);
                queue.push((next, new_forks));
            }
            let mut p = philosophers[i];
            let mut new_forks = copy_forks(&forks);
            if p.pick_up_right(&mut new_forks) {
                let mut next = copy_philosophers(&philosophers);
                next.set(i, p);
                queue.push((next, new_forks));
            }
            proof {
                let pi = cur.0[i as int];
                let added = apply_at(cur, i as int, down_step(pi, cur.1)) + apply_at(cur, i as int, left_step(pi, cur.1))
                    + apply_at(cur, i as int, right_step(pi, cur.1));
                assert(table_moves(cur, (i + 1) as nat) == tm + added);
                assert forall|k: int| 0 <= k < table_moves(cur, (i + 1) as nat).len() implies table_view(#[trigger] queue@[q0.len() + k]) == table_moves(cur, (i + 1) as nat)[k] by {
                    if k < tm.len() {
                        assert(table_moves(cur, (i + 1) as nat)[k] == tm[k]);
                    }
                }
            }
            i = i + 1;
        }
        proof {
            lemma_moves_shaped(nn, cfg, cur, nn);
            let pw = choose|p: Seq<TableState>| #[trigger] table_path(nn, cfg, p) && p.last() == cur;
            assert forall|k: int| 0 <= k < queue@.len() implies table_reachable(nn, cfg, #[trigger] table_view(queue@[k])) by {
                if k >= q0.len() {
                    let t = table_view(queue@[k]);
                    let kk = k - q0.len();
                    assert(q0.len() + kk == k);
                    assert(table_view(queue@[q0.len() + kk]) == table_moves(cur, nn)[kk]);
                    assert(table_moves(cur, nn)[k - q0.len()] == t);
                    assert(table_moves(cur, nn).contains(t));
                    let pp = pw.push(t);
                    assert(table_path(nn, cfg, pp)) by {
                        assert forall|m: int| 0 <= m < pp.len() - 1 implies table_moves(pp[m], nn).contains(#[trigger] pp[m + 1]) by {
                            if m < pw.len() - 1 {
                                assert(pp[m] == pw[m]);
                                assert(pp[m + 1] == pw[m + 1]);
                            }
                        }
                    }
                    assert(pp.last() == t);
                } else {
                    assert(queue@[k] == q0[k]);
                }
            }
            assert forall|k: int| 0 <= k < queue@.len() implies shaped(nn, cfg, #[trigger] table_view(queue@[k])) by {
                if k >= q0.len() {
                    let kk = k - q0.len();
                    assert(q0.len() + kk == k);
                    assert(table_view(queue@[q0.len() + kk]) == table_moves(cur, nn)[kk]);
                    assert(table_moves(cur, nn)[k - q0.len()] == table_view(queue@[k]));
                } else {
                    assert(queue@[k] == q0[k]);
                }
            }
        }
        let actions = queue.len() - q0_len;
        let ghost sv = table_views(states@);
        let entry: ReachableState = (copy_philosophers(&philosophers), copy_forks(&forks));
        states.push(entry);
        if actions == 0 {
            deadlocks.push((copy_philosophers(&philosophers), copy_forks(&forks)));
        }
        proof {
            assert(table_views(states@) =~= sv.push(cur));
            assert(table_views(states@).drop_last() =~= sv);
            assert(!sv.contains(cur));
            assert(table_views(states@).no_duplicates()) by {
                assert forall|a: int, b: int| 0 <= a < table_views(states@).len() && 0 <= b < table_views(states@).len() && a != b implies table_views(states@)[a] != table_views(states@)[b] by {
                    if a < sv.len() && b < sv.len() {
                        assert(sv[a] != sv[b]);
                    } else if a == sv.len() {
                        assert(sv[b] != cur);
                    } else {
                        assert(sv[a] != cur);
                    }
                }
            }
            assert forall|k: int| 0 <= k < states@.len() implies shaped(nn, cfg, #[trigger] table_view(states@[k])) by {
                if k < sv.len() {
                    assert(table_view(states@[k]) == sv[k]);
                }
            }
            lemma_states_bounded(nn, cfg, table_views(states@));
            assert forall|k: int, t: TableState|
                0 <= k < states@.len() && #[trigger] table_moves(table_view(states@[k]), nn).contains(t) implies exists|q: int|
                    0 <= q < queue@.len() && table_view(queue@[q]) == t by {
                if k < sv.len() {
                    assert(table_view(states@[k]) == sv[k]);
                    let q = choose|q: int| 0 <= q < q0.len() && table_view(q0[q]) == t;
                    assert(queue@[q] == q0[q]);
                } else {
                    let j = choose|j: int| 0 <= j < table_moves(cur, nn).len() && table_moves(cur, nn)[j] == t;
                    assert(table_view(queue@[q0.len() + j]) == t);
                }
            }
            assert forall|k: int| 0 <= k < head + 1 implies table_views(states@).contains(#[trigger] table_view(queue@[k])) by {
                if k < head {
                    assert(queue@[k] == q0[k]);
                    let j = choose|j: int| 0 <= j < sv.len() && sv[j] == table_view(q0[k]);
                    assert(table_views(states@)[j] == sv[j]);
                } else {
                    assert(queue@[k] == q0[k]);
                    assert(table_views(states@)[sv.len() as int] == cur);
                }
            }
            assert(table_views(deadlocks@) == stuck_states(nn, table_views(states@)));
        }
        head = head + 1;
    }
    proof {
        let s = table_views(states@);
        assert forall|st: TableState| s.contains(st) <==> table_reachable(nn, cfg, st) by {
            if s.contains(st) {
                let j = choose|j: int| 0 <= j < s.len() && s[j] == st;
                assert(table_reachable(nn, cfg, table_view(states@[j])));
            }
            if table_reachable(nn, cfg, st) {
                let p = choose|p: Seq<TableState>| #[trigger] table_path(nn, cfg, p) && p.last() == st;
                lemma_closed_reachable(nn, cfg, states@, queue@, p);
            }
        }
    }
    (states, deadlocks)
}

proof fn lemma_closed_reachable(
    n: nat,
    cfg: Seq<PhilosopherConfiguration>,
    states: Seq<ReachableState>,
    queue: Seq<ReachableState>,
    p: Seq<TableState>,
)
    requires
        queue.len() >= 1,
        table_view(queue[0]) == initial_table(n, cfg),
        forall|k: int| 0 <= k < queue.len() ==> table_views(states).contains(#[trigger] table_view(queue[k])),
        forall|k: int, t: TableState|
            0 <= k < states.len() && #[trigger] table_moves(table_view(states[k]), n).contains(t) ==> exists|q: int|
                0 <= q < queue.len() && table_view(queue[q]) == t,
        table_path(n, cfg, p),
    ensures
        table_views(states).contains(p.last()),
    decreases p.len(),
{
    if p.len() == 1 {
        assert(table_views(states).contains(table_view(queue[0])));
    } else {
        let q = p.drop_last();
        assert(table_path(n, cfg, q)) by {
            assert forall|m: int| 0 <= m < q.len() - 1 implies table_moves(q[m], n).contains(#[trigger] q[m + 1]) by {
                assert(table_moves(p[m], n).contains(p[m + 1]));
            }
        }
        lemma_closed_reachable(n, cfg, states, queue, q);
        let j = choose|j: int| 0 <= j < table_views(states).len() && table_views(states)[j] == q.last();
        let m = p.len() - 2;
        assert(table_moves(p[m], n).contains(p[m + 1]));
        assert(table_view(states[j]) == p[m]);
        assert(table_moves(table_view(states[j]), n).contains(p.last()));
        let qq = choose|qq: int| 0 <= qq < queue.len() && table_view(queue[qq]) == p.last();
        assert(table_views(states).contains(table_view(queue[qq])));
    }
}

/// A name made of a prefix, a number and a suffix.
pub open spec fn label_name(prefix: Seq<char>, i: int, suffix: Seq<char>) -> Seq<char> {
    prefix + decimal(i as nat) + suffix
}

fn name_of(prefix: &str, i: usize, suffix: &str) -> (r: String)
    ensures
        r@ == label_name(prefix@, i as int, suffix@),
{
    let mut out = String::new();
    push_text(&mut out, prefix);
    push_decimal(&mut out, i as u64);
    push_text(&mut out, suffix);
    out
}

/// The builder after philosopher `i`'s places, transitions and arcs.
pub open spec fn dining_step(b: BuilderView, i: int, n: int, c: PhilosopherConfiguration) -> BuilderView {
    let next_i = (i + 1) % n;
    let th = label_name("thinking"@, i, ""@);
    let ea = label_name("eating"@, i, ""@);
    let il = label_name("inbetweenL"@, i, ""@);
    let ir = label_name("inbetweenR"@, i, ""@);
    let fk = label_name("fork"@, i, ""@);
    let fk2 = label_name("fork"@, next_i, ""@);
    let bt = label_name("b"@, i, ""@);
    let ls = label_name("l"@, i, "_start"@);
    let lf = label_name("l"@, i, "_finish"@);
    let rs = label_name("r"@, i, "_start"@);
    let rf = label_name("r"@, i, "_finish"@);
    let b1 = BuilderView {
        nodes: b.nodes + seq![(th, 1u32), (ea, 0u32), (il, 0u32), (ir, 0u32), (fk, 1u32)],
        transitions: b.transitions.push(bt),
        edges: b.edges + seq![(ea, bt), (bt, th), (bt, fk), (bt, fk2)],
        ..b
    };
    let b2 = if c.allowed_left {
        BuilderView {
            transitions: b1.transitions + seq![ls, lf],
            edges: b1.edges + seq![(th, ls), (fk, ls), (ls, il), (il, lf), (fk2, lf), (lf, ea)],
            ..b1
        }
    } else {
        b1
    };
    if c.allowed_right {
        BuilderView {
            transitions: b2.transitions + seq![rs, rf],
            edges: b2.edges + seq![(th, rs), (fk2, rs), (rs, ir), (ir, rf), (fk, rf), (rf, ea)],
            ..b2
        }
    } else {
        b2
    }
}

/// The builder after the first `k` philosophers.
pub open spec fn dining_builder(n: int, cs: Seq<PhilosopherConfiguration>, k: nat) -> BuilderView
    decreases k,
{
    if k == 0 {
        BuilderView {
            id: "dining_philosophers"@,
            name: "Dining Philosophers"@,
            nodes: seq![],
            transitions: seq![],
            edges: seq![],
        }
    } else {
        dining_step(dining_builder(n, cs, (k - 1) as nat), k - 1, n, cs[k - 1])
    }
}

proof fn lemma_dining_sizes(n: int, cs: Seq<PhilosopherConfiguration>, k: nat)
    ensures
        dining_builder(n, cs, k).nodes.len() == 5 * k,
        dining_builder(n, cs, k).transitions.len() <= 5 * k,
    decreases k,
{
    if k > 0 {
        lemma_dining_sizes(n, cs, (k - 1) as nat);
    }
}

/// The configuration of philosopher `i` in a mode of the problem: in mode 1 each may start
/// with either fork; in mode 2 the first starts left and the others right; in mode 0, and in
/// any other mode, all start right.
pub open spec fn mode_config(mode: usize, i: int) -> PhilosopherConfiguration {
    if mode == 1 {
        PhilosopherConfiguration { allowed_left: true, allowed_right: true }
    } else if mode == 2 {
        PhilosopherConfiguration { allowed_left: i == 0, allowed_right: i != 0 }
    } else {
        PhilosopherConfiguration { allowed_left: false, allowed_right: true }
    }
}

/// The configurations of `n` philosophers in a mode of the problem.
pub fn config_generator(mode: usize, n: usize) -> (r: Vec<PhilosopherConfiguration>)
    ensures
        r@.len() == n,
        forall|i: int| 0 <= i < n ==> #[trigger] r@[i] == mode_config(mode, i),
{
    let mut config: Vec<PhilosopherConfiguration> = Vec::new();
    let mut i: usize = 0;
    while i < n
        invariant
            i <= n,
            config@.len() == i,
            forall|j: int| 0 <= j < i ==> #[trigger] config@[j] == mode_config(mode, j),
        decreases n - i,
    {
        let c = if mode == 1 {
            PhilosopherConfiguration { allowed_left: true, allowed_right: true }
        } else if mode == 2 {
            PhilosopherConfiguration { allowed_left: i == 0, allowed_right: i != 0 }
        } else {
            PhilosopherConfiguration { allowed_left: false, allowed_right: true }
        };
        config.push(c);
        i = i + 1;
    }
    config
}

/// The dining philosophers as a Petri net: for each philosopher the places `thinking`,
/// `eating`, `inbetweenL`, `inbetweenR` and its fork, the transition `b` that puts both forks
/// down, and the transitions that take the forks from the left and from the right where allowed.
pub fn build_dining_philosophers(n: usize, configurations: Vec<PhilosopherConfiguration>) -> (r: PetriNet)
    requires
        5 * n <= u32::MAX,
    ensures
        net_view(r) == spec_build(
            dining_builder(
                n as int,
                configurations@,
                if n <= configurations@.len() {
                    n as nat
                } else {
                    configurations@.len()
                },
            ),
        ),
{
    let mut builder = PetriNetBuilder::new(
        String::from_str("dining_philosophers"),
        String::from_str("Dining Philosophers"),
    );
    let m = if n <= configurations.len() {
        n
    } else {
        configurations.len()
    };
    let mut i: usize = 0;
    while i < m
        invariant
            m <= n,
            m <= configurations@.len(),
            5 * n <= u32::MAX,
            i <= m,
            builder.view_of() == dining_builder(n as int, configurations@, i as nat),
        decreases m - i,
    {
        let config = configurations[i];
        let next_i = (i + 1) % n;
        let ghost b0 = builder.view_of();
        builder = builder.add_place(name_of("thinking", i, ""), 1);
        builder = builder.add_place(name_of("eating", i, ""), 0);
        builder = builder.add_place(name_of("inbetweenL", i, ""), 0);
        builder = builder.add_place(name_of("inbetweenR", i, ""), 0);
        builder = builder.add_place(name_of("fork", i, ""), 1);
        builder = builder.add_transition(name_of("b", i, ""));
        builder = builder.add_arc(name_of("eating", i, ""), name_of("b", i, ""));
        builder = builder.add_arc(name_of("b", i, ""), name_of("thinking", i, ""));
        builder = builder.add_arc(name_of("b", i, ""), name_of("fork", i, ""));
        builder = builder.add_arc(name_of("b", i, ""), name_of("fork", next_i, ""));
        let ghost b1 = builder.view_of();
        if config.allowed_left {
            builder = builder.add_transition(name_of("l", i, "_start"));
            builder = builder.add_transition(name_of("l", i, "_finish"));
            builder = builder.add_arc(name_of("thinking", i, ""), name_of("l", i, "_start"));
            builder = builder.add_arc(name_of("fork", i, ""), name_of("l", i, "_start"));
            builder = builder.add_arc(name_of("l", i, "_start"), name_of("inbetweenL", i, ""));
            builder = builder.add_arc(name_of("inbetweenL", i, ""), name_of("l", i, "_finish"));
            builder = builder.add_arc(name_of("fork", next_i, ""), name_of("l", i, "_finish"));
            builder = builder.add_arc(name_of("l", i, "_finish"), name_of("eating", i, ""));
            proof {
                let ls = label_name("l"@, i as int, "_start"@);
                let lf = label_name("l"@, i as int, "_finish"@);
                let th = label_name("thinking"@, i as int, ""@);
                let ea = label_name("eating"@, i as int, ""@);
                let il = label_name("inbetweenL"@, i as int, ""@);
                let fk = label_name("fork"@, i as int, ""@);
                let fk2 = label_name("fork"@, next_i as int, ""@);
                assert(builder.view_of().transitions =~= b1.transitions + seq![ls, lf]);
                assert(builder.view_of().edges =~= b1.edges + seq![(th, ls), (fk, ls), (ls, il), (il, lf), (fk2, lf), (lf, ea)]);
            }
        }
        let ghost b2 = builder.view_of();
        if config.allowed_right {
            builder = builder.add_transition(name_of("r", i, "_start"));
            builder = builder.add_transition(name_of("r", i, "_finish"));
            builder = builder.add_arc(name_of("thinking", i, ""), name_of("r", i, "_start"));
            builder = builder.add_arc(name_of("fork", next_i, ""), name_of("r", i, "_start"));
            builder = builder.add_arc(name_of("r", i, "_start"), name_of("inbetweenR", i, ""));
            builder = builder.add_arc(name_of("inbetweenR", i, ""), name_of("r", i, "_finish"));
            builder = builder.add_arc(name_of("fork", i, ""), name_of("r", i, "_finish"));
            builder = builder.add_arc(name_of("r", i, "_finish"), name_of("eating", i, ""));
            proof {
                let rs = label_name("r"@, i as int, "_start"@);
                let rf = label_name("r"@, i as int, "_finish"@);
                let th = label_name("thinking"@, i as int, ""@);
                let ea = label_name("eating"@, i as int, ""@);
                let ir = label_name("inbetweenR"@, i as int, ""@);
                let fk = label_name("fork"@, i as int, ""@);
                let fk2 = label_name("fork"@, next_i as int, ""@);
                assert(builder.view_of().transitions =~= b2.transitions + seq![rs, rf]);
                assert(builder.view_of().edges =~= b2.edges + seq![(th, rs), (fk2, rs), (rs, ir), (ir, rf), (fk, rf), (rf, ea)]);
            }
        }
        proof {
            assert(b1.nodes =~= dining_step(b0, i as int, n as int, config).nodes);
            assert(b1.edges =~= b0.edges + seq![
                (label_name("eating"@, i as int, ""@), label_name("b"@, i as int, ""@)),
                (label_name("b"@, i as int, ""@), label_name("thinking"@, i as int, ""@)),
                (label_name("b"@, i as int, ""@), label_name("fork"@, i as int, ""@)),
                (label_name("b"@, i as int, ""@), label_name("fork"@, next_i as int, ""@)),
            ]);
            assert(b1.transitions =~= b0.transitions.push(label_name("b"@, i as int, ""@)));
            assert(builder.view_of().nodes =~= dining_step(b0, i as int, n as int, config).nodes);
            assert(builder.view_of().transitions =~= dining_step(b0, i as int, n as int, config).transitions);
            assert(builder.view_of().edges =~= dining_step(b0, i as int, n as int, config).edges);
            assert(builder.view_of() == dining_step(b0, i as int, n as int, config));
        }
        i = i + 1;
    }
    proof {
        lemma_dining_sizes(n as int, configurations@, m as nat);
        assert(builder.view_of().nodes.len() == builder.nodes@.len());
        assert(builder.view_of().transitions.len() == builder.transition@.len());
    }
    builder.build()
}

/// Philosopher `p` holds its left fork.
pub open spec fn holds_left(p: Philosopher) -> bool {
    p.stage == Stage::InbetweenLeft || p.stage == Stage::Eating
}

/// Philosopher `p` holds its right fork.
pub open spec fn holds_right(p: Philosopher) -> bool {
    p.stage == Stage::InbetweenRight || p.stage == Stage::Eating
}

/// The seat before seat `f` round a table of `n`.
pub open spec fn seat_before(f: int, n: nat) -> int {
    if f == 0 {
        n - 1
    } else {
        f - 1
    }
}

/// Each fork is taken exactly when one of its two neighbours holds it (the philosopher of its
/// own number as a left fork, the one before as a right fork), and never by both at once.
pub open spec fn forks_held(n: nat, st: TableState) -> bool {
    forall|f: int|
        0 <= f < n ==> (#[trigger] st.1[f] == (holds_left(st.0[f]) || holds_right(st.0[seat_before(f, n)])))
            && !(holds_left(st.0[f]) && holds_right(st.0[seat_before(f, n)]))
}

proof fn lemma_next_seat(i: int, n: nat)
    requires
        0 <= i < n,
    ensures
        (i + 1) % (n as int) == if i + 1 < n { i + 1 } else { 0 },
{
    if i + 1 < n {
        vstd::arithmetic::div_mod::lemma_small_mod((i + 1) as nat, n);
    } else {
        vstd::arithmetic::div_mod::lemma_mod_self_0(n as int);
    }
}

/// One step of philosopher `i` keeps every fork with exactly the neighbours that hold it.
proof fn lemma_step_forks(n: nat, configs: Seq<PhilosopherConfiguration>, st: TableState, i: int)
    requires
        shaped(n, configs, st),
        forks_held(n, st),
        0 <= i < n,
    ensures
        down_step(st.0[i], st.1) matches Some(x) ==> forks_held(n, (st.0.update(i, x.0), x.1)),
        left_step(st.0[i], st.1) matches Some(x) ==> forks_held(n, (st.0.update(i, x.0), x.1)),
        right_step(st.0[i], st.1) matches Some(x) ==> forks_held(n, (st.0.update(i, x.0), x.1)),
{
    lemma_next_seat(i, n);
    let nx: int = if i + 1 < n { i + 1 } else { 0 };
    let p = st.0[i];
    assert(p.fork_left == i && p.fork_right == nx);
    assert(seat_before(nx, n) == i);
    let before = seat_before(i, n);
    assert(st.1[i] == (holds_left(st.0[i]) || holds_right(st.0[before])));
    assert(st.1[nx] == (holds_left(st.0[nx]) || holds_right(st.0[i])));
    let steps = seq![down_step(p, st.1), left_step(p, st.1), right_step(p, st.1)];
    assert forall|k: int| 0 <= k < 3 && (#[trigger] steps[k]) is Some implies forks_held(
        n,
        (st.0.update(i, steps[k]->Some_0.0), steps[k]->Some_0.1),
    ) by {
        let x = steps[k]->Some_0;
        let ps = st.0.update(i, x.0);
        assert(x.0.stage != p.stage);
        assert forall|f: int| 0 <= f < n implies (#[trigger] x.1[f] == (holds_left(ps[f]) || holds_right(
            ps[seat_before(f, n)],
        ))) && !(holds_left(ps[f]) && holds_right(ps[seat_before(f, n)])) by {
            assert(st.1[f] == (holds_left(st.0[f]) || holds_right(st.0[seat_before(f, n)])));
            if f != i && f != nx {
                assert(seat_before(f, n) != i);
                assert(x.1[f] == st.1[f]);
            }
        }
    }
    assert(steps[0] == down_step(p, st.1));
    assert(steps[1] == left_step(p, st.1));
    assert(steps[2] == right_step(p, st.1));
}

/// Every state one step leads to keeps every fork with exactly the neighbours that hold it.
proof fn lemma_moves_forks(n: nat, configs: Seq<PhilosopherConfiguration>, st: TableState, k: nat, x: TableState)
    requires
        shaped(n, configs, st),
        forks_held(n, st),
        k <= n,
        table_moves(st, k).contains(x),
    ensures
        forks_held(n, x),
    decreases k,
{
    let i = k - 1;
    let p = st.0[i];
    let prev = table_moves(st, (k - 1) as nat);
    let a = apply_at(st, i, down_step(p, st.1));
    let b = apply_at(st, i, left_step(p, st.1));
    let c = apply_at(st, i, right_step(p, st.1));
    assert(table_moves(st, k) == prev + a + b + c);
    let all = table_moves(st, k);
    let j = choose|j: int| 0 <= j < all.len() && #[trigger] all[j] == x;
    lemma_step_forks(n, configs, st, i);
    if j < prev.len() {
        assert(prev[j] == x);
        lemma_moves_forks(n, configs, st, (k - 1) as nat, x);
    } else if j < prev.len() + a.len() {
        assert(a[j - prev.len()] == x);
    } else if j < prev.len() + a.len() + b.len() {
        assert(b[j - prev.len() - a.len()] == x);
    } else {
        assert(c[j - prev.len() - a.len() - b.len()] == x);
    }
}

proof fn lemma_path_forks(n: nat, configs: Seq<PhilosopherConfiguration>, p: Seq<TableState>, k: int)
    requires
        n <= usize::MAX,
        configs.len() >= n,
        table_path(n, configs, p),
        0 <= k < p.len(),
    ensures
        shaped(n, configs, p[k]),
        forks_held(n, p[k]),
    decreases k,
{
    if k == 0 {
        let st = initial_table(n, configs);
        assert forall|i: int| 0 <= i < n implies (#[trigger] st.0[i]).id == i && st.0[i].fork_left == i
            && st.0[i].fork_right == (i + 1) % (n as int) && st.0[i].configuration == configs[i] by {
            lemma_next_seat(i, n);
        }
        assert forall|f: int| 0 <= f < n implies (#[trigger] st.1[f] == (holds_left(st.0[f]) || holds_right(
            st.0[seat_before(f, n)],
        ))) && !(holds_left(st.0[f]) && holds_right(st.0[seat_before(f, n)])) by {
            assert(st.0[seat_before(f, n)].stage == Stage::Thinking);
        }
    } else {
        lemma_path_forks(n, configs, p, k - 1);
        let km = k - 1;
        assert(table_moves(p[km], n).contains(p[km + 1]));
        lemma_moves_shaped(n, configs, p[k - 1], n);
        let moves = table_moves(p[k - 1], n);
        let j = choose|j: int| 0 <= j < moves.len() && #[trigger] moves[j] == p[k];
        assert(shaped(n, configs, table_moves(p[k - 1], n)[j]));
        lemma_moves_forks(n, configs, p[k - 1], n, p[k]);
    }
}

/// In every state reachable from the start, each fork is taken exactly when one of its two
/// neighbours holds it, and no fork is held by two philosophers at once; the philosophers
/// keep their seats, forks and configurations.
pub proof fn lemma_reachable_forks(n: nat, configs: Seq<PhilosopherConfiguration>, st: TableState)
    requires
        n <= usize::MAX,
        configs.len() >= n,
        table_reachable(n, configs, st),
    ensures
        shaped(n, configs, st),
        forks_held(n, st),
{
    let p = choose|p: Seq<TableState>| #[trigger] table_path(n, configs, p) && p.last() == st;
    lemma_path_forks(n, configs, p, p.len() - 1);
}

/// Nobody at the table can take a step.
pub open spec fn nobody_moves(n: nat, st: TableState) -> bool {
    forall|i: int|
        0 <= i < n ==> #[trigger] down_step(st.0[i], st.1) is None && left_step(st.0[i], st.1) is None && right_step(
            st.0[i],
            st.1,
        ) is None
}

proof fn lemma_no_moves(st: TableState, k: nat)
    ensures
        table_moves(st, k).len() == 0 <==> forall|i: int|
            0 <= i < k ==> #[trigger] down_step(st.0[i], st.1) is None && left_step(st.0[i], st.1) is None
                && right_step(st.0[i], st.1) is None,
    decreases k,
{
    if k > 0 {
        lemma_no_moves(st, (k - 1) as nat);
    }
}

/// The stuck states of a list are, in order, those of its states where nobody can take a
/// step.
pub proof fn lemma_stuck_states(n: nat, s: Seq<TableState>)
    ensures
        stuck_states(n, s) == s.filter(|st: TableState| nobody_moves(n, st)),
    decreases s.len(),
{
    reveal(Seq::filter);
    if s.len() > 0 {
        lemma_stuck_states(n, s.drop_last());
        lemma_no_moves(s.last(), n);
    }
}

} // verus!
