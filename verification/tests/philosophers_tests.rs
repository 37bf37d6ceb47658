use ltl_forge::philosophers::config_generator;
use ltl_forge::explorer::get_reachability_stats;
use ltl_forge::philosophers::{
    build_dining_philosophers, compute_reachable_states_and_deadlocks, PhilosopherConfiguration,
};

fn config(allowed_left: bool, allowed_right: bool) -> PhilosopherConfiguration {
    PhilosopherConfiguration { allowed_left, allowed_right }
}

#[test]
fn test_calculate_dining_philosophers_both() {
    let n = 4;
    let configurations = vec![config(true, true), config(true, true), config(true, true), config(true, true)];
    let (states, deadlocks) = compute_reachable_states_and_deadlocks(n, configurations);
    assert_eq!(states.len(), 81);
    assert_eq!(deadlocks.len(), 2);
}

#[test]
fn test_calculate_dining_philosophers_left_only() {
    let n = 4;
    let configurations = vec![config(true, false), config(true, false), config(true, false), config(true, false)];
    let (states, deadlocks) = compute_reachable_states_and_deadlocks(n, configurations);
    assert_eq!(states.len(), 34);
    assert_eq!(deadlocks.len(), 1);
}

#[test]
fn test_calculate_dining_philosophers_one_left_rest_right() {
    let n = 4;
    let configurations = vec![config(true, false), config(false, true), config(false, true), config(false, true)];
    let (states, deadlocks) = compute_reachable_states_and_deadlocks(n, configurations);
    assert_eq!(states.len(), 29);
    assert_eq!(deadlocks.len(), 0);
}

#[test]
fn test_build_dining_philosophers_matches() {
    let cases = vec![
        vec![config(true, true), config(true, true), config(true, true), config(true, true)],
        vec![config(true, false), config(true, false), config(true, false), config(true, false)],
        vec![config(true, false), config(true, true), config(true, true), config(true, false)],
        vec![config(true, false), config(false, true), config(false, true), config(false, true)],
    ];
    for configurations in cases {
        let n = configurations.len();
        let (states, deadlocks) = compute_reachable_states_and_deadlocks(n, configurations.clone());
        let petri_net = build_dining_philosophers(n, configurations);
        let stats = get_reachability_stats(&petri_net);
        assert_eq!(stats.reachable_count, states.len());
        assert_eq!(stats.deadlock_count, deadlocks.len());
    }
}

/// The net of one philosopher who may only start left: its places and transitions by name.
#[test]
fn test_build_dining_philosophers_names() {
    let net = build_dining_philosophers(1, vec![config(true, false)]);
    let places: Vec<&str> = net.places.iter().map(|p| p.id.as_str()).collect();
    assert_eq!(places, vec!["thinking0", "eating0", "inbetweenL0", "inbetweenR0", "fork0"]);
    let transitions: Vec<&str> = net.transitions.iter().map(|t| t.id.as_str()).collect();
    assert_eq!(transitions, vec!["b0", "l0_start", "l0_finish"]);
    assert_eq!(net.initial_tokens, vec![1, 0, 0, 0, 1]);
    assert_eq!(net.transitions[1].incoming, vec![0, 4]);
    assert_eq!(net.transitions[1].outgoing, vec![2]);
}

/// Mode 0 has everyone start right, mode 1 lets anyone start either way, mode 2 has the first
/// start left and the others right; other modes are mode 0.
#[test]
fn test_config_generator_modes() {
    let c0 = config_generator(0, 3);
    assert!(c0.iter().all(|c| !c.allowed_left && c.allowed_right));
    let c1 = config_generator(1, 2);
    assert!(c1.iter().all(|c| c.allowed_left && c.allowed_right));
    let c2 = config_generator(2, 3);
    assert!(c2[0].allowed_left && !c2[0].allowed_right);
    assert!(!c2[1].allowed_left && c2[1].allowed_right && !c2[2].allowed_left);
    assert_eq!(config_generator(7, 2), config_generator(0, 2));
    assert!(config_generator(1, 0).is_empty());
}
