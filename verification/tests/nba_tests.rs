use ltl_forge::graph::{components, reachable_from, reached_from_marked, reverse_graph};
use ltl_forge::gnba::{AcceptanceCondition, State, Transitions, GNBA};
use ltl_forge::ltl_parser::LTL;
use ltl_forge::nba::NBA;
use rustc_hash::FxHashMap;

#[test]
fn test_nba_dead_state_removal_prunes_unreachable_and_non_accepting_states() {
    let dummy_gnba = GNBA::new(&LTL::True);
    let mut nba = NBA {
        closure: vec![],
        states: vec![
            State { id: 0, formulas: vec![] },
            State { id: 1, formulas: vec![] },
            State { id: 2, formulas: vec![] },
            State { id: 3, formulas: vec![] },
            State { id: 4, formulas: vec![] },
        ],
        transitions: vec![
            Transitions { transitions: vec![1, 3], label: vec![vec![], vec![]] },
            Transitions { transitions: vec![2], label: vec![vec![]] },
            Transitions { transitions: vec![], label: vec![] },
            Transitions { transitions: vec![4], label: vec![vec![]] },
            Transitions { transitions: vec![4], label: vec![vec![]] },
        ],
        initial_states: vec![0],
        acceptance_condition: AcceptanceCondition { states: vec![2, 4] },
        new_to_gnba: vec![(0, 0, 0), (1, 0, 1), (2, 0, 2), (3, 0, 3), (4, 0, 4)],
        gnba_to_new: FxHashMap::from_iter([
            ((0usize, 0usize), 0usize),
            ((1usize, 0usize), 1usize),
            ((2usize, 0usize), 2usize),
            ((3usize, 0usize), 3usize),
            ((4usize, 0usize), 4usize),
        ]),
        gnba: dummy_gnba,
    };

    nba.remove_dead_states();

    assert_eq!(nba.states.len(), 3);
    assert_eq!(nba.initial_states, vec![0]);
    assert_eq!(nba.acceptance_condition.states, vec![2]);
    assert_eq!(nba.transitions[0].transitions, vec![1]);
    assert_eq!(nba.transitions[1].transitions, vec![2]);
    assert_eq!(nba.transitions[2].transitions, vec![2]);
    assert!(nba.states.iter().all(|state| state.id < nba.states.len()));
}

/// A state on an accepting cycle that no initial state reaches is taken out too.
#[test]
fn test_dead_state_removal_drops_unreachable_cycle() {
    let mut nba = NBA {
        closure: vec![],
        states: vec![State { id: 0, formulas: vec![] }, State { id: 1, formulas: vec![] }],
        transitions: vec![
            Transitions { transitions: vec![0], label: vec![vec![]] },
            Transitions { transitions: vec![1], label: vec![vec![]] },
        ],
        initial_states: vec![0],
        acceptance_condition: AcceptanceCondition { states: vec![0, 1] },
        new_to_gnba: vec![(0, 0, 0), (1, 0, 1)],
        gnba_to_new: FxHashMap::default(),
        gnba: GNBA::new(&LTL::True),
    };
    nba.remove_dead_states();
    assert_eq!(nba.states.len(), 1);
    assert_eq!(nba.acceptance_condition.states, vec![0]);
    assert_eq!(nba.new_to_gnba, vec![(0, 0, 0)]);
}

/// The NBA of `F a` has a run; the successors of a state are only offered for its own label.
#[test]
fn test_nba_new_and_next() {
    let f = LTL::Eventually(Box::new(LTL::Var("a".to_string())));
    let nba = NBA::new(&f);
    assert!(!nba.states.is_empty());
    assert!(!nba.initial_states().is_empty());
    assert!(!nba.acceptance_condition.states.is_empty());
    let q = nba.initial_states()[0];
    let own_label = nba.gnba.label(nba.new_to_gnba[q].0);
    assert_eq!(nba.next(q, &own_label), nba.successors(q).to_vec());
    let mut other = own_label.clone();
    if other.is_empty() {
        other.push(true);
    } else {
        other[0] = !other[0];
    }
    assert!(nba.next(q, &other).is_empty());
    assert!(nba.next(nba.states.len(), &own_label).is_empty());
    let dot = nba.to_dot();
    assert!(dot.starts_with("digraph NBA {\n"));
    let hoa = nba.to_hoa();
    assert!(hoa.contains("Acceptance: 1 Inf(0)\n"));
}

#[test]
fn components_come_after_what_they_reach() {
    let g: Vec<Vec<usize>> = vec![vec![1], vec![]];
    let comps = components(&g);
    assert_eq!(comps, vec![vec![1], vec![0]]);
}

#[test]
fn components_of_a_cycle_and_a_tail() {
    // 0 -> 1 -> 2 -> 1, 2 -> 3
    let g: Vec<Vec<usize>> = vec![vec![1], vec![2], vec![1, 3], vec![]];
    let comps = components(&g);
    assert_eq!(comps, vec![vec![3], vec![1, 2], vec![0]]);
}

#[test]
fn searches_forwards_and_backwards() {
    // 0 -> 1 -> 2 -> 1, 2 -> 3, 4 alone
    let g: Vec<Vec<usize>> = vec![vec![1], vec![2], vec![1, 3], vec![], vec![]];
    assert_eq!(reachable_from(&g, 1), vec![false, true, true, true, false]);
    let rev = reverse_graph(&g);
    assert_eq!(rev, vec![vec![], vec![0, 2], vec![1], vec![2], vec![]]);
    assert_eq!(reachable_from(&rev, 3), vec![true, true, true, true, false]);
    let sources = vec![false, false, false, true, true];
    assert_eq!(reached_from_marked(&g, &sources), vec![false, false, false, true, true]);
    assert_eq!(reached_from_marked(&rev, &sources), vec![true, true, true, true, true]);
}

#[test]
fn small_formulas_fit_and_build() {
    let f = LTL::Until(Box::new(LTL::Var("a".to_string())), Box::new(LTL::Var("b".to_string())));
    assert_eq!(f.checked_size(), Some(3));
    assert!(ltl_forge::gnba::gnba_fits(&f));
    assert!(ltl_forge::nba_build::nba_fits(&f));
    let g = GNBA::try_new(&f).unwrap();
    let n = NBA::try_new(&f).unwrap();
    assert_eq!(g.states.len(), GNBA::new(&f).states.len());
    assert_eq!(n.states.len(), NBA::new(&f).states.len());
}
