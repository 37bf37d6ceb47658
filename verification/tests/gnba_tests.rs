use ltl_forge::gnba::GNBA;
use ltl_forge::ltl_parser::LTL;

#[test]
fn test_gnba_construction() {
    let formula = LTL::Until(
        Box::new(LTL::Var("a".to_string())),
        Box::new(LTL::And(
            Box::new(LTL::Not(Box::new(LTL::Var("a".to_string())))),
            Box::new(LTL::Var("b".to_string())),
        )),
    );
    let gnba = GNBA::new(&formula);
    assert_eq!(gnba.closure.len(), 4);
    assert!(gnba.states.len() <= 6);
    assert!(!gnba.states.is_empty());
    assert!(gnba.initial_states.iter().all(|state_id| *state_id < gnba.states.len()));
    assert!(gnba
        .states
        .iter()
        .all(|state| gnba.successors(state.id).iter().all(|next| *next < gnba.states.len())));
    assert_eq!(gnba.acceptance_conditions.len(), 1);
}

/// A formula without `U` gets one acceptance set holding every state.
#[test]
fn test_gnba_without_until_accepts_everywhere() {
    let gnba = GNBA::new(&LTL::Next(Box::new(LTL::Var("a".to_string()))));
    assert_eq!(gnba.acceptance_conditions.len(), 1);
    assert_eq!(gnba.acceptance_conditions[0].states.len(), gnba.states.len());
    for state in &gnba.states {
        assert!(gnba.is_accepting(state.id));
    }
}

/// The DOT and HOA texts of a small automaton.
#[test]
fn test_gnba_dot_and_hoa() {
    let gnba = GNBA::new(&LTL::Var("a".to_string()));
    let dot = gnba.to_dot();
    assert!(dot.starts_with("digraph GNBA {\n  rankdir=LR;\n  start [shape=point];\n"));
    assert!(dot.ends_with("}\n"));
    let hoa = gnba.to_hoa();
    assert!(hoa.starts_with("HOA: v1\nStates: "));
    assert!(hoa.contains("AP: 1 \"a\" \n"));
    assert!(hoa.contains("Acceptance: 1 Inf(0)\n"));
    assert!(hoa.ends_with("--END--\n"));
}
