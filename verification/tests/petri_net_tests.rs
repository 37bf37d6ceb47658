use ltl_forge::petri_net::{PetriNet, Place, Transition};

fn small_net() -> PetriNet {
    PetriNet {
        id: "test_net".to_string(),
        name: "Test Net".to_string(),
        places: vec![Place { id: "p1".to_string() }, Place { id: "p2".to_string() }],
        transitions: vec![Transition { id: "t1".to_string(), incoming: vec![0], outgoing: vec![1] }],
        initial_tokens: vec![1, 0],
    }
}

#[test]
fn test_petri_net() {
    let petri_net = small_net();
    let initial_state = petri_net.initial_state();
    assert_eq!(initial_state.tokens, vec![1, 0]);
    let next_states = petri_net.next_states(&initial_state);
    assert_eq!(next_states.len(), 1);
    assert_eq!(next_states[0].tokens, vec![0, 1]);
}

/// A transition with two arcs from one place needs two tokens there.
#[test]
fn test_fireable_counts_repeated_arcs() {
    let t = Transition { id: "t".to_string(), incoming: vec![0, 0], outgoing: vec![] };
    assert!(!t.is_fireable_tokens(&[1]));
    assert!(t.is_fireable_tokens(&[2]));
    assert!(!t.is_fireable_tokens(&[]));
}

/// Token counts stop at `u32::MAX`.
#[test]
fn test_tokens_saturate() {
    let net = PetriNet {
        id: "n".to_string(),
        name: "n".to_string(),
        places: vec![Place { id: "p".to_string() }],
        transitions: vec![Transition { id: "t".to_string(), incoming: vec![], outgoing: vec![0] }],
        initial_tokens: vec![u32::MAX],
    };
    let next = net.next_states(&net.initial_state());
    assert_eq!(next[0].tokens, vec![u32::MAX]);
}

#[test]
fn test_state_string() {
    let net = small_net();
    let s = net.get_state_string(&net.initial_state());
    assert_eq!(s, "{p1:1,p2:0}");
}

#[test]
fn test_to_pnml() {
    let net = small_net();
    let expected = "<pnml><net id=\"test_net\" type=\"http://www.pnml.org/version-2009/grammar/ptnet\">\n\
<name><text>Test Net</text></name>\n\
<page id=\"page1\">\n\
<place id=\"p1\">\n<initialMarking><text>1</text></initialMarking>\n</place>\n\
<place id=\"p2\">\n<initialMarking><text>0</text></initialMarking>\n</place>\n\
<transition id=\"t1\" />\n\
<arc id=\"arc_p1_t1\" source=\"p1\" target=\"t1\" />\n\
<arc id=\"arc_t1_p2\" source=\"t1\" target=\"p2\" />\n\
</page></net></pnml>";
    assert_eq!(net.to_pnml(), expected);
}
