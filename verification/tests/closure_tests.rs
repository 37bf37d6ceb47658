use ltl_forge::closure::compute_closure;
use ltl_forge::ltl_parser::LTL;

fn var(name: &str) -> LTL {
    LTL::Var(name.to_string())
}

#[test]
fn test_closure() {
    let ltl = LTL::Not(Box::new(LTL::Eventually(Box::new(LTL::And(
        Box::new(var("a")),
        Box::new(LTL::Eventually(Box::new(var("b")))),
    )))));
    let closure = compute_closure(&ltl);
    let expected_closure = vec![
        LTL::Eventually(Box::new(LTL::And(
            Box::new(var("a")),
            Box::new(LTL::Eventually(Box::new(var("b")))),
        ))),
        LTL::And(Box::new(var("a")), Box::new(LTL::Eventually(Box::new(var("b"))))),
        var("a"),
        LTL::Eventually(Box::new(var("b"))),
        var("b"),
    ];
    assert_eq!(closure.len(), expected_closure.len());
    for expr in expected_closure {
        assert!(closure.contains(&expr));
    }
}

#[test]
fn test_closure_until() {
    let ltl = LTL::Until(
        Box::new(var("a")),
        Box::new(LTL::And(Box::new(LTL::Not(Box::new(var("a")))), Box::new(var("b")))),
    );
    let closure = compute_closure(&ltl);
    let expected_closure = vec![
        LTL::Until(
            Box::new(var("a")),
            Box::new(LTL::And(Box::new(LTL::Not(Box::new(var("a")))), Box::new(var("b")))),
        ),
        var("a"),
        LTL::And(Box::new(LTL::Not(Box::new(var("a")))), Box::new(var("b"))),
        var("b"),
    ];
    assert_eq!(closure.len(), expected_closure.len());
    for expr in expected_closure {
        assert!(closure.contains(&expr));
    }
}

/// The closure lists smaller formulas before the larger ones that contain them.
#[test]
fn test_closure_sorted_by_size() {
    let ltl = LTL::Or(Box::new(var("p")), Box::new(LTL::Next(Box::new(var("q")))));
    let closure = compute_closure(&ltl);
    for pair in closure.windows(2) {
        assert!(pair[0].size() <= pair[1].size());
    }
    assert_eq!(closure[closure.len() - 1], ltl);
}
