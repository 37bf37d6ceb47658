use ltl_forge::consistency::is_consistent;
use ltl_forge::ltl_parser::LTL;

#[test]
fn test_constants() {
    let closure = vec![LTL::True];
    let sets = is_consistent(&closure);
    assert_eq!(sets.len(), 1);
    assert!(sets.contains(&vec![true]));

    let closure = vec![LTL::False];
    let sets = is_consistent(&closure);
    assert_eq!(sets.len(), 1);
    assert!(sets.contains(&vec![false]));
}

#[test]
fn test_and_consistency() {
    let a = LTL::Var("a".to_string());
    let b = LTL::Var("b".to_string());
    let and = LTL::And(Box::new(a.clone()), Box::new(b.clone()));
    let closure = vec![a.clone(), b.clone(), and.clone()];
    let sets = is_consistent(&closure);
    let expected = vec![
        vec![false, false, false],
        vec![false, true, false],
        vec![true, false, false],
        vec![true, true, true],
    ];
    for e in expected {
        assert!(sets.contains(&e));
    }
    assert_eq!(sets.len(), 4);
}

#[test]
fn test_implies_consistency() {
    let a = LTL::Var("a".to_string());
    let b = LTL::Var("b".to_string());
    let imp = LTL::Implies(Box::new(a.clone()), Box::new(b.clone()));
    let closure = vec![a.clone(), b.clone(), imp.clone()];
    let sets = is_consistent(&closure);
    let expected = vec![
        vec![false, false, true],
        vec![false, true, true],
        vec![true, false, false],
        vec![true, true, true],
    ];
    for e in expected {
        assert!(sets.contains(&e));
    }
    assert_eq!(sets.len(), 4);
}

#[test]
fn test_until_local_rule() {
    let a = LTL::Var("a".to_string());
    let not_a = LTL::Not(Box::new(a.clone()));
    let b = LTL::Var("b".to_string());
    let and = LTL::And(Box::new(not_a.clone()), Box::new(b.clone()));
    let until = LTL::Until(Box::new(a.clone()), Box::new(and.clone()));
    let closure = vec![a.clone(), b.clone(), and.clone(), until.clone()];
    let sets = is_consistent(&closure);
    println!("Consistent sets:");
    for s in &sets {
        println!("{:?}", s);
    }
    let consitentsy_sets = vec![
        vec![true, true, false, true],
        vec![true, true, false, false],
        vec![true, false, false, true],
        vec![true, false, false, false],
        vec![false, true, true, true],
        vec![false, false, false, false],
    ];
    for s in consitentsy_sets {
        assert!(sets.contains(&s));
    }
    assert_eq!(sets.len(), 6);
}

/// Every consistent vector is listed once: no two are equal.
#[test]
fn test_consistent_sets_distinct() {
    let a = LTL::Var("a".to_string());
    let b = LTL::Var("b".to_string());
    let or = LTL::Or(Box::new(a.clone()), Box::new(b.clone()));
    let sets = is_consistent(&vec![a, b, or]);
    for i in 0..sets.len() {
        for j in 0..i {
            assert_ne!(sets[i], sets[j]);
        }
    }
    assert_eq!(sets.len(), 4);
}
