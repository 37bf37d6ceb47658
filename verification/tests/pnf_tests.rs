use ltl_forge::ltl_parser::LTL;
use ltl_forge::pnf::{automaton_formula, pnf_eliminate_temporal_operators, pnf_simplifications, push_pnf_inwards, to_pnf};

fn var(name: &str) -> LTL {
    LTL::Var(name.to_string())
}

#[test]
fn test_to_push_pnf_inwards_and() {
    let mut ltl = LTL::Not(Box::new(LTL::And(Box::new(var("a")), Box::new(var("b")))));
    push_pnf_inwards(&mut ltl);
    let expected = LTL::Or(
        Box::new(LTL::Not(Box::new(var("a")))),
        Box::new(LTL::Not(Box::new(var("b")))),
    );
    assert_eq!(ltl, expected);
}

#[test]
fn test_to_push_pnf_inwards_or() {
    let mut ltl = LTL::Not(Box::new(LTL::Or(Box::new(var("a")), Box::new(var("b")))));
    push_pnf_inwards(&mut ltl);
    let expected = LTL::And(
        Box::new(LTL::Not(Box::new(var("a")))),
        Box::new(LTL::Not(Box::new(var("b")))),
    );
    assert_eq!(ltl, expected);
}

#[test]
fn test_to_push_pnf_inwards_next() {
    let mut ltl = LTL::Not(Box::new(LTL::Next(Box::new(var("a")))));
    push_pnf_inwards(&mut ltl);
    let expected = LTL::Next(Box::new(LTL::Not(Box::new(var("a")))));
    assert_eq!(ltl, expected);
}

#[test]
fn test_to_push_pnf_inwards_until() {
    let mut ltl = LTL::Not(Box::new(LTL::Until(Box::new(var("a")), Box::new(var("b")))));
    push_pnf_inwards(&mut ltl);
    let expected = LTL::Release(
        Box::new(LTL::Not(Box::new(var("a")))),
        Box::new(LTL::Not(Box::new(var("b")))),
    );
    assert_eq!(ltl, expected);
}

#[test]
fn test_to_pnf_eliminate_temporal_operators() {
    let mut ltl = LTL::Eventually(Box::new(var("a")));
    pnf_eliminate_temporal_operators(&mut ltl);
    let expected = LTL::Until(Box::new(LTL::True), Box::new(var("a")));
    assert_eq!(ltl, expected);
}

#[test]
fn test_to_pnf_eliminate_temporal_operators_globally() {
    let mut ltl = LTL::Globally(Box::new(var("a")));
    pnf_eliminate_temporal_operators(&mut ltl);
    let expected = LTL::Release(Box::new(LTL::False), Box::new(var("a")));
    assert_eq!(ltl, expected);
}

#[test]
fn test_to_pnf_simplifications() {
    let mut ltl = LTL::Globally(Box::new(LTL::Globally(Box::new(var("a")))));
    pnf_simplifications(&mut ltl);
    let expected = LTL::Globally(Box::new(var("a")));
    assert_eq!(ltl, expected);
}

#[test]
fn test_to_push_pnf_full() {
    let ltl = LTL::Not(Box::new(LTL::Eventually(Box::new(LTL::And(
        Box::new(var("a")),
        Box::new(var("b")),
    )))));
    let pnf = to_pnf(&ltl);
    let expected = LTL::Release(
        Box::new(LTL::False),
        Box::new(LTL::Or(
            Box::new(LTL::Not(Box::new(var("a")))),
            Box::new(LTL::Not(Box::new(var("b")))),
        )),
    );
    assert_eq!(pnf, expected);
}

#[test]
fn test_to_push_pnf_full_nested() {
    let ltl = LTL::Not(Box::new(LTL::Eventually(Box::new(LTL::And(
        Box::new(var("a")),
        Box::new(LTL::Eventually(Box::new(var("b")))),
    )))));
    let pnf = to_pnf(&ltl);
    let expected = LTL::Release(
        Box::new(LTL::False),
        Box::new(LTL::Or(
            Box::new(LTL::Not(Box::new(var("a")))),
            Box::new(LTL::Globally(Box::new(LTL::Not(Box::new(var("b")))))),
        )),
    );
    assert_eq!(pnf, expected);
}

/// Pushing negations inward leaves a formula without negations untouched.
#[test]
fn test_push_inwards_keeps_positive_formula() {
    let mut ltl = LTL::Until(Box::new(var("a")), Box::new(LTL::Next(Box::new(var("b")))));
    let before = ltl.clone();
    push_pnf_inwards(&mut ltl);
    assert_eq!(ltl, before);
}

/// A double negation disappears when it is pushed inward.
#[test]
fn test_push_inwards_double_negation() {
    let mut ltl = LTL::Not(Box::new(LTL::Not(Box::new(var("a")))));
    push_pnf_inwards(&mut ltl);
    assert_eq!(ltl, var("a"));
}

/// A negated implication becomes its premise and the negated conclusion.
#[test]
fn test_push_inwards_negated_implication() {
    let mut ltl = LTL::Not(Box::new(LTL::Implies(Box::new(var("a")), Box::new(LTL::Not(Box::new(var("b")))))));
    push_pnf_inwards(&mut ltl);
    assert_eq!(ltl, LTL::And(Box::new(var("a")), Box::new(var("b"))));
}

/// The automaton formula rewrites a `G` below the top as well.
#[test]
fn test_automaton_formula_nested() {
    let ltl = LTL::And(
        Box::new(LTL::Eventually(Box::new(var("a")))),
        Box::new(LTL::Globally(Box::new(LTL::Not(Box::new(var("a")))))),
    );
    let expected = LTL::And(
        Box::new(LTL::Until(Box::new(LTL::True), Box::new(var("a")))),
        Box::new(LTL::Release(Box::new(LTL::False), Box::new(LTL::Not(Box::new(var("a")))))),
    );
    assert_eq!(automaton_formula(&ltl), expected);
}
