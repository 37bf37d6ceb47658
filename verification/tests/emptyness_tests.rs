use ltl_forge::emptyness::{
    check_emptyness_generic, is_satisfiable, memory_verdict, past_time_limit, MemoryProbe, ModelCheckConfig,
    ModelCheckError,
};
use ltl_forge::gnba::GNBA;
use ltl_forge::grammar::parse_ltl;
use ltl_forge::nba::NBA;
use ltl_forge::petri_net::{PetriNet, Place, Transition};
use ltl_forge::product::model_check;

/// Reports no memory in use.
#[derive(Clone, Copy)]
struct QuietProbe;

impl MemoryProbe for QuietProbe {
    fn current_rss_bytes(&self) -> Option<u64> {
        Some(0)
    }
}

/// Cannot tell how much memory is in use.
#[derive(Clone, Copy)]
struct BlindProbe;

impl MemoryProbe for BlindProbe {
    fn current_rss_bytes(&self) -> Option<u64> {
        None
    }
}

#[test]
fn test_emptiness_on_known_formulas() {
    let cases = [("F a", false), ("G (a -> F b)", false), ("a & !a", true), ("G false", true)];
    for (formula, expected_empty) in cases {
        let (_, ltl) = parse_ltl(formula).unwrap();
        let (nba_sat, gnba_sat) = is_satisfiable(&ltl, &ModelCheckConfig::default(), QuietProbe).unwrap();
        assert_eq!(nba_sat.0, !expected_empty, "NBA mismatch for {formula}");
        assert_eq!(gnba_sat.0, !expected_empty, "GNBA mismatch for {formula}");
        let gnba = GNBA::new(&ltl);
        let nba = NBA::new(&ltl);
        assert_eq!(
            check_emptyness_generic(&gnba, &ModelCheckConfig::default(), QuietProbe).unwrap().0,
            expected_empty,
            "GNBA emptiness mismatch for {formula}"
        );
        assert_eq!(
            check_emptyness_generic(&nba, &ModelCheckConfig::default(), QuietProbe).unwrap().0,
            expected_empty,
            "NBA emptiness mismatch for {formula}"
        );
    }
}

/// A found run is a lasso: the blue stack starts at an initial state and ends at an accepting
/// one, where the red stack starts.
#[test]
fn test_emptiness_witness_shape() {
    let (_, ltl) = parse_ltl("G F a").unwrap();
    let nba = NBA::new(&ltl);
    let (empty, stack, stack2) = check_emptyness_generic(&nba, &ModelCheckConfig::default(), QuietProbe).unwrap();
    assert!(!empty);
    let stack = stack.unwrap();
    let stack2 = stack2.unwrap();
    assert!(nba.initial_states().contains(&stack[0]));
    assert!(nba.is_accepting(*stack.last().unwrap()));
    assert_eq!(stack2[0], *stack.last().unwrap());
    let last = *stack2.last().unwrap();
    assert!(nba.successors(last).iter().any(|s| stack.contains(s)));
}

/// Without a way to read the memory in use, a memory limit stops the search.
#[test]
fn test_memory_unknown_is_an_error() {
    let (_, ltl) = parse_ltl("F a").unwrap();
    let nba = NBA::new(&ltl);
    let r = check_emptyness_generic(&nba, &ModelCheckConfig::default(), BlindProbe);
    assert!(matches!(r, Err(ModelCheckError::CouldNotDetermineMemoryUsage)));
    let no_limit = ModelCheckConfig { timeout_secs: None, memory_limit_mb: None };
    assert!(check_emptyness_generic(&nba, &no_limit, BlindProbe).unwrap().0 == false);
}

#[test]
fn test_config_defaults_and_limits() {
    let d = ModelCheckConfig::default();
    assert_eq!(d.timeout_secs, Some(300));
    assert_eq!(d.memory_limit_mb, Some(4096));
    let c = ModelCheckConfig::with_limits(7, 9);
    assert_eq!(c.timeout_secs, Some(7));
    assert_eq!(c.memory_limit_mb, Some(9));
    assert_eq!(ModelCheckError::Timeout.message(), "timed out");
}

fn toggle_net() -> PetriNet {
    PetriNet {
        id: "toggle".to_string(),
        name: "toggle".to_string(),
        places: vec![Place { id: "on".to_string() }, Place { id: "off".to_string() }],
        transitions: vec![
            Transition { id: "t_off".to_string(), incoming: vec![0], outgoing: vec![1] },
            Transition { id: "t_on".to_string(), incoming: vec![1], outgoing: vec![0] },
        ],
        initial_tokens: vec![1, 0],
    }
}

/// `on` holds on a net that starts with a token on `on`; `G on` does not, as the token moves.
#[test]
fn test_model_check_toggle() {
    let net = toggle_net();
    let (_, holds) = parse_ltl("on").unwrap();
    let (ok, st, st2) = model_check(&net, &holds, &ModelCheckConfig::default(), QuietProbe).unwrap();
    assert!(ok);
    assert!(st.is_none() && st2.is_none());
    let (_, fails) = parse_ltl("G on").unwrap();
    let (ok, st, st2) = model_check(&net, &fails, &ModelCheckConfig::default(), QuietProbe).unwrap();
    assert!(!ok);
    let st = st.unwrap();
    assert_eq!(st[0].petri_state.tokens, vec![1, 0]);
    assert!(!st2.unwrap().is_empty());
}

/// A search is past its time limit once a whole second or any part of one goes beyond it.
#[test]
fn test_past_time_limit() {
    assert!(!past_time_limit(4, 999_999_999, 5));
    assert!(!past_time_limit(5, 0, 5));
    assert!(past_time_limit(5, 1, 5));
    assert!(past_time_limit(6, 0, 5));
}

/// Unknown memory is an error; more bytes than the limit in megabytes is another.
#[test]
fn test_memory_verdict() {
    assert_eq!(memory_verdict(1, None), Err(ModelCheckError::CouldNotDetermineMemoryUsage));
    assert_eq!(memory_verdict(1, Some(1_048_576)), Ok(()));
    assert_eq!(memory_verdict(1, Some(1_048_577)), Err(ModelCheckError::MemoryLimitExceeded));
    assert_eq!(memory_verdict(u64::MAX, Some(u64::MAX)), Ok(()));
}

/// With no limit set, the watch never stops a search, even when memory cannot be read.
#[test]
fn test_watch_without_limits() {
    let config = ModelCheckConfig { timeout_secs: None, memory_limit_mb: None };
    let watch = ltl_forge::emptyness::Watch::new(&config, BlindProbe);
    assert_eq!(watch.check(), Ok(()));
    let limited = ModelCheckConfig { timeout_secs: None, memory_limit_mb: Some(1) };
    let watch = ltl_forge::emptyness::Watch::new(&limited, BlindProbe);
    assert_eq!(watch.check(), Err(ModelCheckError::CouldNotDetermineMemoryUsage));
}

/// `F a & G !a` has no model: both automata are empty.
#[test]
fn test_eventually_and_never_unsatisfiable() {
    let (_, ltl) = parse_ltl("F a & G !a").unwrap();
    let ((n, np, nc), (g, gp, gc)) = is_satisfiable(&ltl, &ModelCheckConfig::default(), QuietProbe).unwrap();
    assert!(!n && !g);
    assert!(np.is_none() && nc.is_none() && gp.is_none() && gc.is_none());
}

/// `!p` holds on a net whose only place never holds a token.
#[test]
fn test_model_check_negated_atom_holds() {
    let net = PetriNet {
        id: "n".to_string(),
        name: "n".to_string(),
        places: vec![Place { id: "p".to_string() }],
        transitions: vec![Transition { id: "t".to_string(), incoming: vec![], outgoing: vec![] }],
        initial_tokens: vec![0],
    };
    let ltl = ltl_forge::ltl_parser::LTL::Not(Box::new(ltl_forge::ltl_parser::LTL::Var("p".to_string())));
    let r = model_check(&net, &ltl, &ModelCheckConfig::default(), QuietProbe).unwrap();
    assert!(r.0 && r.1.is_none() && r.2.is_none());
}

/// The NBA's answer is `true` exactly for the formulas that some trace satisfies.
#[test]
fn satisfiability_follows_the_models() {
    let cases = [
        ("a U b", true),
        ("G a & F !a", false),
        ("X a & X !a", false),
        ("F a & F b & G !b", false),
        ("G F a & G F !a", true),
        ("G (a -> F b) & F a & G !b", false),
        ("(a U b) -> c", true),
        ("((a U b) -> c) & b & !c", false),
        ("(X a -> X b) & X a & X !b", false),
        ("((a M b) -> c) & a & b & !c", false),
        ("((a M b) -> c) & X (a & b) & b & !c", false),
        ("((a M b) -> c) & G !b", true),
        ("(!G a -> b) & !a & G !b", false),
        ("(!(a R b) -> c) & !b & G !c", false),
        ("(!(a R b) -> c) & G b & G !c", true),
    ];
    for (formula, satisfiable) in cases {
        let (_, ltl) = parse_ltl(formula).unwrap();
        let (nba_sat, _) = is_satisfiable(&ltl, &ModelCheckConfig::default(), QuietProbe).unwrap();
        assert_eq!(nba_sat.0, satisfiable, "NBA answer for {formula}");
    }
}

/// The GNBA's answer counts a state as accepting when it lies in any one acceptance set, so
/// that it finds a run for `F a & F b & G !b`, which no trace satisfies.
#[test]
fn gnba_answer_reads_any_acceptance_set() {
    let (_, ltl) = parse_ltl("F a & F b & G !b").unwrap();
    let (nba_sat, gnba_sat) = is_satisfiable(&ltl, &ModelCheckConfig::default(), QuietProbe).unwrap();
    assert!(!nba_sat.0);
    assert!(gnba_sat.0);
}

/// An implication whose left operand is a release is read by the automaton only where the
/// release's state value is true: `((p R q) -> r) & G q & G !p & G !r` has no model, yet its
/// NBA accepts the run on which `p R q` is kept false.
#[test]
fn implication_over_release_reads_it_positively() {
    let (_, ltl) = parse_ltl("((p R q) -> r) & G q & G !p & G !r").unwrap();
    let (nba_sat, _) = is_satisfiable(&ltl, &ModelCheckConfig::default(), QuietProbe).unwrap();
    assert!(nba_sat.0);
}
