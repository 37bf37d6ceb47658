use vstd::prelude::*;

use std::time::{Duration, Instant};

use crate::gnba::GNBA;
use crate::graph::valid_graph;
use crate::ltl_parser::LTL;
use crate::nba::NBA;
use crate::nba_build::nba_size_ok;
use crate::ltl_parser::Formula;
use crate::product::nba_for;
use crate::language::language_exact;
use crate::nba_language::lemma_nba_lasso_sat;
use crate::semantics::holds;
use crate::ndfs::{edge, grows, lasso, run_ndfs, walk, NdfsEngine, SearchOutcome};

verus! {

/// Limits of a search: seconds of time and megabytes of resident memory.
pub struct ModelCheckConfig {
    pub timeout_secs: Option<u64>,
    pub memory_limit_mb: Option<u64>,
}

impl Clone for ModelCheckConfig {
    fn clone(&self) -> (r: Self)
        ensures
            r == *self,
    {
        ModelCheckConfig { timeout_secs: self.timeout_secs, memory_limit_mb: self.memory_limit_mb }
    }
}

impl Default for ModelCheckConfig {
    /// Five minutes and 4096 megabytes.
    fn default() -> (r: Self)
        ensures
            r.timeout_secs == Some(300u64),
            r.memory_limit_mb == Some(4096u64),
    {
        ModelCheckConfig { timeout_secs: Some(300), memory_limit_mb: Some(4096) }
    }
}

impl ModelCheckConfig {
    /// Both limits set.
    pub fn with_limits(timeout_secs: u64, memory_limit_mb: u64) -> (r: Self)
        ensures
            r.timeout_secs == Some(timeout_secs),
            r.memory_limit_mb == Some(memory_limit_mb),
    {
        ModelCheckConfig { timeout_secs: Some(timeout_secs), memory_limit_mb: Some(memory_limit_mb) }
    }
}

/// Why a search stopped before it had an answer.
#[derive(Clone, Copy, PartialEq, Eq, Structural, Debug)]
pub enum ModelCheckError {
    Timeout,
    MemoryLimitExceeded,
    CouldNotDetermineMemoryUsage,
}

/// The text that names an error.
pub open spec fn error_text(e: ModelCheckError) -> Seq<char> {
    match e {
        ModelCheckError::Timeout => "timed out"@,
        ModelCheckError::MemoryLimitExceeded => "memory limit exceeded"@,
        ModelCheckError::CouldNotDetermineMemoryUsage => "could not determine memory usage"@,
    }
}

impl ModelCheckError {
    /// The message of the error.
    pub fn message(&self) -> (r: &'static str)
        ensures
            r@ == error_text(*self),
    {
        match self {
            ModelCheckError::Timeout => "timed out",
            ModelCheckError::MemoryLimitExceeded => "memory limit exceeded",
            ModelCheckError::CouldNotDetermineMemoryUsage => "could not determine memory usage",
        }
    }
}

/// An error can only come from a limit that is set.
pub open spec fn error_allowed(c: ModelCheckConfig, e: ModelCheckError) -> bool {
    match e {
        ModelCheckError::Timeout => c.timeout_secs is Some,
        ModelCheckError::MemoryLimitExceeded => c.memory_limit_mb is Some,
        ModelCheckError::CouldNotDetermineMemoryUsage => c.memory_limit_mb is Some,
    }
}

/// Reads how many bytes of memory the process holds, where that can be known.
pub trait MemoryProbe {
    fn current_rss_bytes(&self) -> Option<u64>;
}

#[verifier::external_type_specification]
#[verifier::external_body]
pub struct ExInstant(std::time::Instant);

/// `Instant::now`: the current time.
#[verifier::external_body]
fn instant_now() -> (r: Instant) {
    Instant::now()
}

/// `Instant::elapsed`: the time passed since `start`; it depends on the clock.
#[verifier::external_body]
fn instant_elapsed(start: &Instant) -> (r: Duration) {
    start.elapsed()
}

/// `Duration::as_secs`: the whole seconds of a duration.
#[verifier::external_body]
fn duration_as_secs(d: &Duration) -> (r: u64) {
    d.as_secs()
}

/// `Duration::subsec_nanos`: the nanoseconds beyond the whole seconds, below 10^9.
#[verifier::external_body]
fn duration_subsec_nanos(d: &Duration) -> (r: u32)
    ensures
        r < 1_000_000_000,
{
    d.subsec_nanos()
}

/// The limits of one search and when it started.
pub struct Watch<P: MemoryProbe> {
    pub config: ModelCheckConfig,
    pub start: Instant,
    pub probe: P,
}

/// `m` megabytes in bytes, or `u64::MAX` where that does not fit.
pub open spec fn megabytes(m: u64) -> u64 {
    if m * 1048576 <= u64::MAX {
        (m * 1048576) as u64
    } else {
        u64::MAX
    }
}

/// Whether a search that has run `secs` seconds and `nanos` nanoseconds is past a limit of
/// `limit` seconds.
pub fn past_time_limit(secs: u64, nanos: u32, limit: u64) -> (r: bool)
    ensures
        r == (secs > limit || (secs == limit && nanos > 0)),
{
    secs > limit || (secs == limit && nanos > 0)
}

/// The verdict on the memory held, `reading` as the probe gave it, under a limit of
/// `limit_mb` megabytes: unknown memory is an error, and so is more than the limit.
pub fn memory_verdict(limit_mb: u64, reading: Option<u64>) -> (r: Result<(), ModelCheckError>)
    ensures
        r == (match reading {
            None => Err(ModelCheckError::CouldNotDetermineMemoryUsage),
            Some(b) => if b > megabytes(limit_mb) {
                Err(ModelCheckError::MemoryLimitExceeded)
            } else {
                Ok(())
            },
        }),
{
    let memory_limit_bytes = if memory_limit_mb_fits(limit_mb) {
        limit_mb * 1048576
    } else {
        u64::MAX
    };
    match reading {
        Some(current_rss_bytes) => {
            if current_rss_bytes > memory_limit_bytes {
                Err(ModelCheckError::MemoryLimitExceeded)
            } else {
                Ok(())
            }
        },
        None => Err(ModelCheckError::CouldNotDetermineMemoryUsage),
    }
}

fn memory_limit_mb_fits(m: u64) -> (r: bool)
    ensures
        r == (m * 1048576 <= u64::MAX),
{
    m <= u64::MAX / 1048576
}

impl<P: MemoryProbe> Watch<P> {
    pub fn new(config: &ModelCheckConfig, probe: P) -> (r: Self)
        ensures
            r.config == *config,
    {
        Watch { config: config.clone(), start: instant_now(), probe }
    }

    /// Fails when the time limit has passed, when the memory held is over the limit, or
    /// when it cannot be read while a memory limit is set.
    pub fn check(&self) -> (r: Result<(), ModelCheckError>)
        ensures
            r matches Err(e) ==> error_allowed(self.config, e),
            self.config.timeout_secs is None && self.config.memory_limit_mb is None ==> r is Ok,
    {
        if let Some(timeout_secs) = self.config.timeout_secs {
            let elapsed = instant_elapsed(&self.start);
            let secs = duration_as_secs(&elapsed);
            let nanos = duration_subsec_nanos(&elapsed);
            if past_time_limit(secs, nanos, timeout_secs) {
                return Err(ModelCheckError::Timeout);
            }
        }
        if let Some(memory_limit_mb) = self.config.memory_limit_mb {
            return memory_verdict(memory_limit_mb, self.probe.current_rss_bytes());
        }
        Ok(())
    }
}

/// An automaton over numbered states.
pub trait Automaton {
    spec fn init_view(&self) -> Seq<usize>;

    spec fn graph_of(&self) -> Seq<Seq<usize>>;

    spec fn accepts(&self, s: int) -> bool;

    fn initials(&self) -> (r: Vec<usize>)
        ensures
            r@ == self.init_view(),
    ;

    fn state_count(&self) -> (r: usize)
        ensures
            r == self.graph_of().len(),
    ;

    fn succs(&self, s: usize) -> (r: &[usize])
        requires
            s < self.graph_of().len(),
        ensures
            r@ == self.graph_of()[s as int],
    ;

    fn accepting(&self, s: usize) -> (r: bool)
        ensures
            r == self.accepts(s as int),
    ;
}

/// Its states and edges are those of a graph whose initial states are states.
pub open spec fn automaton_ok<A: Automaton>(a: A) -> bool {
    &&& valid_graph(a.graph_of())
    &&& forall|k: int| 0 <= k < a.init_view().len() ==> #[trigger] a.init_view()[k] < a.graph_of().len()
}

impl Automaton for NBA {
    open spec fn init_view(&self) -> Seq<usize> {
        self.initial_states@
    }

    open spec fn graph_of(&self) -> Seq<Seq<usize>> {
        self.graph_view()
    }

    open spec fn accepts(&self, s: int) -> bool {
        self.acceptance_condition.states@.contains(s as usize)
    }

    fn initials(&self) -> (r: Vec<usize>) {
        self.initial_states()
    }

    fn state_count(&self) -> (r: usize) {
        self.transitions.len()
    }

    fn succs(&self, s: usize) -> (r: &[usize]) {
        self.successors(s)
    }

    fn accepting(&self, s: usize) -> (r: bool) {
        self.is_accepting(s)
    }
}

impl Automaton for GNBA {
    open spec fn init_view(&self) -> Seq<usize> {
        self.initial_states@
    }

    open spec fn graph_of(&self) -> Seq<Seq<usize>> {
        Seq::new(self.transitions@.len(), |s: int| self.succ_view(s))
    }

    open spec fn accepts(&self, s: int) -> bool {
        exists|k: int|
            0 <= k < self.acceptance_view().len() && #[trigger] self.acceptance_view()[k].contains(
                s as usize,
            )
    }

    fn initials(&self) -> (r: Vec<usize>) {
        self.initial_states.clone()
    }

    fn state_count(&self) -> (r: usize) {
        self.transitions.len()
    }

    fn succs(&self, s: usize) -> (r: &[usize]) {
        self.transitions[s].transitions.as_slice()
    }

    fn accepting(&self, s: usize) -> (r: bool) {
        let r = self.is_accepting(s);
        assert((s as int) as usize == s);
        r
    }
}

/// `p` is a walk in `g`.
pub open spec fn graph_walk(g: Seq<Seq<usize>>, p: Seq<usize>) -> bool {
    &&& forall|i: int| 0 <= i < p.len() ==> #[trigger] p[i] < g.len()
    &&& forall|i: int| 0 <= i < p.len() - 1 ==> g[p[i] as int].contains(#[trigger] p[i + 1])
}

/// `st` leads from an initial state to an accepting one, and `st2` from there to a state
/// with a successor on `st`: a run of the automaton that visits the accepting state forever.
pub open spec fn aut_lasso<A: Automaton>(a: A, st: Seq<usize>, st2: Seq<usize>) -> bool {
    let g = a.graph_of();
    &&& st.len() >= 1
    &&& a.init_view().contains(st[0])
    &&& graph_walk(g, st)
    &&& a.accepts(st.last() as int)
    &&& st2.len() >= 1
    &&& st2[0] == st.last()
    &&& graph_walk(g, st2)
    &&& exists|c: usize| st.contains(c) && #[trigger] g[st2.last() as int].contains(c)
}

/// What an emptiness check answers: `(true, None, None)` when no accepting run was found,
/// and `(false, Some(stack), Some(stack2))` with one.
pub type EmptinessOutcome = (bool, Option<Vec<usize>>, Option<Vec<usize>>);

/// The answer of an emptiness check on `a`.
pub open spec fn emptiness_answer<A: Automaton>(a: A, o: EmptinessOutcome) -> bool {
    &&& o.0 ==> o.1 is None && o.2 is None
    &&& o.0 ==> forall|st: Seq<usize>, st2: Seq<usize>| !#[trigger] aut_lasso(a, st, st2)
    &&& !o.0 ==> (o.1 matches Some(st) && o.2 matches Some(st2) && aut_lasso(a, st@, st2@))
}

/// The search over an automaton, with its successor lists and accepting marks copied out.
pub struct AutomatonNdfs<P: MemoryProbe> {
    pub graph: Vec<Vec<usize>>,
    pub accepting: Vec<bool>,
    pub watch: Watch<P>,
}

impl<P: MemoryProbe> AutomatonNdfs<P> {
    pub open spec fn graph_seq(&self) -> Seq<Seq<usize>> {
        self.graph@.map_values(|v: Vec<usize>| v@)
    }
}

impl<P: MemoryProbe> NdfsEngine for AutomatonNdfs<P> {
    open spec fn count(&self) -> nat {
        self.graph@.len()
    }

    open spec fn cap(&self) -> nat {
        self.graph@.len()
    }

    open spec fn succ_of(&self, s: int) -> Option<Seq<usize>> {
        if 0 <= s < self.graph@.len() {
            Some(self.graph@[s]@)
        } else {
            None
        }
    }

    open spec fn acc(&self, s: int) -> bool {
        self.accepting@[s]
    }

    open spec fn cfg(&self) -> ModelCheckConfig {
        self.watch.config
    }

    open spec fn inv(&self) -> bool {
        &&& self.accepting@.len() == self.graph@.len()
        &&& valid_graph(self.graph_seq())
    }

    open spec fn keeps(&self, later: Self) -> bool {
        true
    }

    proof fn lemma_keeps_refl(a: Self) {
    }

    proof fn lemma_keeps_trans(a: Self, b: Self, c: Self) {
    }

    fn num_states(&self) -> (r: usize) {
        self.graph.len()
    }

    fn check_limits(&mut self) -> (r: Result<(), ModelCheckError>)
        ensures
            *final(self) == *old(self),
            old(self).cfg().timeout_secs is None && old(self).cfg().memory_limit_mb is None ==> r is Ok,
    {
        self.watch.check()
    }

    fn successors(&mut self, s: usize) -> (r: Result<Vec<usize>, ModelCheckError>) {
        let v = self.graph[s].clone();
        proof {
            assert forall|k: int| 0 <= k < v@.len() implies #[trigger] v@[k] < self.count() by {
                assert(self.graph_seq()[s as int] == self.graph@[s as int]@);
            }
        }
        Ok(v)
    }

    fn is_accepting(&self, s: usize) -> (r: bool) {
        self.accepting[s]
    }
}

/// The nested depth-first search over an automaton: `(true, None, None)` when no run that
/// visits an accepting state infinitely often was found from its initial states, and
/// `(false, Some(stack), Some(stack2))` with such a run otherwise.
pub fn check_emptyness_generic<A: Automaton, P: MemoryProbe>(
    automaton: &A,
    config: &ModelCheckConfig,
    probe: P,
) -> (r: Result<EmptinessOutcome, ModelCheckError>)
    requires
        automaton_ok(*automaton),
    ensures
        r matches Ok(o) ==> emptiness_answer(*automaton, o),
        r matches Err(e) ==> error_allowed(*config, e),
{
    let ghost g = automaton.graph_of();
    let roots = automaton.initials();
    let n = automaton.state_count();
    let mut graph: Vec<Vec<usize>> = Vec::new();
    let mut accepting: Vec<bool> = Vec::new();
    let mut s: usize = 0;
    while s < n
        invariant
            automaton_ok(*automaton),
            g == automaton.graph_of(),
            n == g.len(),
            s <= n,
            graph@.len() == s,
            accepting@.len() == s,
            forall|j: int| 0 <= j < s ==> (#[trigger] graph@[j])@ == g[j],
            forall|j: int| 0 <= j < s ==> #[trigger] accepting@[j] == automaton.accepts(j),
        decreases n - s,
    {
        let succ = automaton.succs(s);
        let mut copy: Vec<usize> = Vec::new();
        let mut k: usize = 0;
        while k < succ.len()
            invariant
                k <= succ@.len(),
                copy@ == succ@.take(k as int),
            decreases succ.len() - k,
        {
            copy.push(succ[k]);
            assert(copy@ =~= succ@.take(k + 1));
            k = k + 1;
        }
        assert(succ@.take(succ@.len() as int) =~= succ@);
        graph.push(copy);
        accepting.push(automaton.accepting(s));
        s = s + 1;
    }
    let mut problem = AutomatonNdfs { graph, accepting, watch: Watch::new(config, probe) };
    proof {
        assert(problem.graph_seq() =~= g);
    }
    let ghost p0 = problem;
    let outcome = run_ndfs(&mut problem, roots);
    match outcome {
        Err(e) => Err(e),
        Ok(o) => {
            let (found, stack, stack2) = o;
            if found {
                proof {
                    let st = stack->Some_0@;
                    let st2 = stack2->Some_0@;
                    lemma_engine_lasso(p0, problem, *automaton, roots@, st, st2);
                }
                Ok((false, stack, stack2))
            } else {
                proof {
                    assert forall|st: Seq<usize>, st2: Seq<usize>| !#[trigger] aut_lasso(*automaton, st, st2) by {
                        if aut_lasso(*automaton, st, st2) {
                            lemma_lasso_engine(p0, problem, *automaton, roots@, st, st2);
                        }
                    }
                }
                Ok((true, None, None))
            }
        },
    }
}

proof fn lemma_lasso_engine<A: Automaton, P: MemoryProbe>(
    p0: AutomatonNdfs<P>,
    p: AutomatonNdfs<P>,
    a: A,
    roots: Seq<usize>,
    st: Seq<usize>,
    st2: Seq<usize>,
)
    requires
        grows(p0, p),
        p0.graph_seq() == a.graph_of(),
        forall|j: int| 0 <= j < p0.accepting@.len() ==> #[trigger] p0.accepting@[j] == a.accepts(j),
        p0.accepting@.len() == p0.graph@.len(),
        roots == a.init_view(),
        aut_lasso(a, st, st2),
    ensures
        lasso(p, roots, st, st2),
{
    let g = a.graph_of();
    assert forall|s: int, t: usize| 0 <= s < g.len() && g[s].contains(t) implies #[trigger] edge(p, s, t) by {
        assert(p0.succ_of(s) == Some(p0.graph@[s]@));
        assert(p0.graph_seq()[s] == p0.graph@[s]@);
        assert(p.succ_of(s) == p0.succ_of(s));
    }
    assert forall|i: int| 0 <= i < st.len() - 1 implies #[trigger] edge(p, st[i] as int, st[i + 1]) by {
        assert(g[st[i] as int].contains(st[i + 1]));
    }
    assert forall|i: int| 0 <= i < st2.len() - 1 implies #[trigger] edge(p, st2[i] as int, st2[i + 1]) by {
        assert(g[st2[i] as int].contains(st2[i + 1]));
    }
    assert forall|i: int| 0 <= i < st.len() implies #[trigger] st[i] < p.count() by {
        assert(st[i] < g.len());
    }
    assert forall|i: int| 0 <= i < st2.len() implies #[trigger] st2[i] < p.count() by {
        assert(st2[i] < g.len());
    }
    let c = choose|c: usize| st.contains(c) && #[trigger] g[st2.last() as int].contains(c);
    assert(st2[st2.len() - 1] < g.len());
    assert(edge(p, st2.last() as int, c));
    assert(st[st.len() - 1] < g.len());
    assert(p.acc(st.last() as int) == p0.acc(st.last() as int));
    assert(p0.accepting@[st.last() as int] == a.accepts(st.last() as int));
}

proof fn lemma_engine_lasso<A: Automaton, P: MemoryProbe>(
    p0: AutomatonNdfs<P>,
    p: AutomatonNdfs<P>,
    a: A,
    roots: Seq<usize>,
    st: Seq<usize>,
    st2: Seq<usize>,
)
    requires
        grows(p0, p),
        p0.graph_seq() == a.graph_of(),
        forall|j: int| 0 <= j < p0.accepting@.len() ==> #[trigger] p0.accepting@[j] == a.accepts(j),
        p0.accepting@.len() == p0.graph@.len(),
        roots == a.init_view(),
        lasso(p, roots, st, st2),
    ensures
        aut_lasso(a, st, st2),
{
    let g = a.graph_of();
    assert forall|s: int, t: usize| 0 <= s < p.count() && #[trigger] edge(p, s, t) implies g[s].contains(t) by {
        assert(p0.succ_of(s) is Some);
        assert(p0.succ_of(s) == Some(p0.graph@[s]@));
        assert(p0.graph_seq()[s] == p0.graph@[s]@);
    }
    assert forall|i: int| 0 <= i < st.len() - 1 implies g[st[i] as int].contains(#[trigger] st[i + 1]) by {
        assert(edge(p, st[i] as int, st[i + 1]));
    }
    assert forall|i: int| 0 <= i < st2.len() - 1 implies g[st2[i] as int].contains(#[trigger] st2[i + 1]) by {
        assert(edge(p, st2[i] as int, st2[i + 1]));
    }
    let c = choose|c: usize| st.contains(c) && #[trigger] edge(p, st2.last() as int, c);
    assert(edge(p, st2.last() as int, c));
    assert(g[st2.last() as int].contains(c));
    assert(p.acc(st.last() as int) == p0.acc(st.last() as int));
}

/// Whether a formula is satisfiable, with a witness run when it is.
pub type SatOutcome = (bool, Option<Vec<usize>>, Option<Vec<usize>>);

/// The answers for the NBA and for the GNBA.
pub type SatisfiabilityOutcome = (SatOutcome, SatOutcome);

/// `o` answers satisfiability by the NBA of `f`.
pub open spec fn nba_sat_answer(f: Formula, o: SatOutcome) -> bool {
    exists|n: NBA| #[trigger] nba_for(n, f) && emptiness_answer(n, (!o.0, o.1, o.2))
}

/// `o` answers satisfiability by the GNBA of `f`, where a state accepts when it belongs to some
/// acceptance set.
pub open spec fn gnba_sat_answer(f: Formula, o: SatOutcome) -> bool {
    exists|g: GNBA| #[trigger] g.built_from(f) && emptiness_answer(g, (!o.0, o.1, o.2))
}

/// Satisfiability of a formula, decided on its NBA and on its GNBA: each answer is `true`
/// with a run that visits an accepting state infinitely often, and `false` when the search
/// found none. Where the automaton formula is exact for the formula (see `language_exact`),
/// the NBA's answer is `true` exactly when some trace satisfies the formula.
pub fn is_satisfiable<P: MemoryProbe + Copy>(
    ltl: &LTL,
    config: &ModelCheckConfig,
    probe: P,
) -> (r: Result<SatisfiabilityOutcome, ModelCheckError>)
    requires
        nba_size_ok(ltl@),
    ensures
        r matches Ok(o) ==> nba_sat_answer(ltl@, o.0) && gnba_sat_answer(ltl@, o.1),
        language_exact(ltl@) ==> (r matches Ok(o) ==> (o.0.0 <==> exists|
            w: spec_fn(nat, Formula) -> bool,
        | #[trigger] holds(ltl@, w)(0))),
        r matches Err(e) ==> error_allowed(*config, e),
{
    let gnba = GNBA::new(ltl);
    let nba = NBA::new(ltl);
    proof {
        assert(automaton_ok(nba));
        assert forall|u: int, k: int| 0 <= u < gnba.graph_of().len() && 0 <= k < gnba.graph_of()[u].len() implies #[trigger] gnba.graph_of()[u][k] < gnba.graph_of().len() by {
            assert(gnba.graph_of()[u] == gnba.succ_view(u));
        }
        assert(automaton_ok(gnba));
    }
    let nba_empty = match check_emptyness_generic(&nba, config, probe) {
        Err(e) => { return Err(e); },
        Ok(o) => o,
    };
    let gnba_empty = match check_emptyness_generic(&gnba, config, probe) {
        Err(e) => { return Err(e); },
        Ok(o) => o,
    };
    let (ne, n1, n2) = nba_empty;
    let (ge, g1, g2) = gnba_empty;
    let a: SatOutcome = (!ne, n1, n2);
    let b: SatOutcome = (!ge, g1, g2);
    proof {
        assert(nba_for(nba, ltl@));
        assert(emptiness_answer(nba, (!a.0, a.1, a.2)));
        assert(nba_sat_answer(ltl@, a));
        if language_exact(ltl@) {
            lemma_nba_lasso_sat(nba, ltl@);
            if !ne {
                let st = n1->0;
                let st2 = n2->0;
                assert(aut_lasso(nba, st@, st2@));
            }
        }
        assert(gnba.built_from(ltl@));
        assert(emptiness_answer(gnba, (!b.0, b.1, b.2)));
        assert(gnba_sat_answer(ltl@, b));
    }
    Ok((a, b))
}

} // verus!
