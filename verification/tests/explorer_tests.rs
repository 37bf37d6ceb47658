use ltl_forge::explorer::get_reachability_stats;
use ltl_forge::petri_net::{PetriNet, Place, Transition};

#[test]
fn test_reachability_of_chain() {
    let net = PetriNet {
        id: "chain".to_string(),
        name: "chain".to_string(),
        places: vec![Place { id: "a".to_string() }, Place { id: "b".to_string() }, Place { id: "c".to_string() }],
        transitions: vec![
            Transition { id: "ab".to_string(), incoming: vec![0], outgoing: vec![1] },
            Transition { id: "bc".to_string(), incoming: vec![1], outgoing: vec![2] },
        ],
        initial_tokens: vec![1, 0, 0],
    };
    let stats = get_reachability_stats(&net);
    assert_eq!(stats.reachable_count, 3);
    assert_eq!(stats.deadlock_count, 1);
}

#[test]
fn test_reachability_of_cycle_has_no_deadlock() {
    let net = PetriNet {
        id: "cycle".to_string(),
        name: "cycle".to_string(),
        places: vec![Place { id: "a".to_string() }, Place { id: "b".to_string() }],
        transitions: vec![
            Transition { id: "ab".to_string(), incoming: vec![0], outgoing: vec![1] },
            Transition { id: "ba".to_string(), incoming: vec![1], outgoing: vec![0] },
        ],
        initial_tokens: vec![1, 0],
    };
    let stats = get_reachability_stats(&net);
    assert_eq!(stats.reachable_count, 2);
    assert_eq!(stats.deadlock_count, 0);
}
