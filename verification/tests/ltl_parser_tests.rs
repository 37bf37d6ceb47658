use ltl_forge::grammar::{parse_expr, parse_ltl, ParseFail};
use ltl_forge::ltl_parser::LTL;

fn parse_ltl_all(input: &str) -> Result<LTL, ParseFail> {
    let (remaining, parsed) = parse_ltl(input)?;
    assert!(remaining.is_empty(), "unparsed suffix: {remaining:?}");
    Ok(parsed)
}

fn parse_expr_all(input: &str) -> Result<LTL, ParseFail> {
    let (remaining, parsed) = parse_expr(input)?;
    assert!(remaining.is_empty(), "unparsed suffix: {remaining:?}");
    Ok(parsed)
}

#[test]
fn ltl_parser_test_parse_ltl() {
    let parsed = parse_ltl_all("G (a U b)").unwrap();
    let expected = LTL::Globally(Box::new(LTL::Until(
        Box::new(LTL::Var("a".to_string())),
        Box::new(LTL::Var("b".to_string())),
    )));
    assert_eq!(parsed, expected);
}

#[test]
fn test_parse_neg_and_in_until() {
    let parsed = parse_ltl_all("G (a U (!a & b))").unwrap();
    let expected = LTL::Globally(Box::new(LTL::Until(
        Box::new(LTL::Var("a".to_string())),
        Box::new(LTL::And(
            Box::new(LTL::Not(Box::new(LTL::Var("a".to_string())))),
            Box::new(LTL::Var("b".to_string())),
        )),
    )));
    assert_eq!(parsed, expected);
}

#[test]
fn ltl_parser_test_parse_expr_manual_tree() {
    let parsed = parse_expr_all("1 <= (#tokens(\"stp4\")) & !(\"t2_2\"?)").unwrap();
    let expected = LTL::And(
        Box::new(LTL::LessEqual(
            Box::new(LTL::Number(1)),
            Box::new(LTL::TokenCount("stp4".to_string())),
        )),
        Box::new(LTL::Not(Box::new(LTL::Fireable("t2_2".to_string())))),
    );
    assert_eq!(parsed, expected);
}

#[test]
fn ltl_parser_test_parse_ltl_firable() {
    let parsed =
        parse_ltl_all("A X G X (\"t2_2\"? U X X !(X (\"t4_2\"? | \"SpeedRW\"?) U \"SpeedRW\"?))").unwrap();
    let fire_t22 = LTL::Fireable("t2_2".to_string());
    let fire_t42_or_speed = LTL::Or(
        Box::new(LTL::Fireable("t4_2".to_string())),
        Box::new(LTL::Fireable("SpeedRW".to_string())),
    );
    let fire_speed = LTL::Fireable("SpeedRW".to_string());
    let nested_until = LTL::Until(Box::new(LTL::Next(Box::new(fire_t42_or_speed))), Box::new(fire_speed));
    let expected = LTL::Next(Box::new(LTL::Globally(Box::new(LTL::Next(Box::new(LTL::Until(
        Box::new(fire_t22),
        Box::new(LTL::Next(Box::new(LTL::Next(Box::new(LTL::Not(Box::new(nested_until))))))),
    )))))));
    assert_eq!(parsed, expected);
}

#[test]
fn test_invalid() {
    assert!(parse_ltl_all("E X (a U b)").is_err());
}

/// `->` groups to the right.
#[test]
fn test_parse_expr_implies_is_right_associative() {
    let parsed = parse_expr_all("a -> b -> c").unwrap();
    let expected = LTL::Implies(
        Box::new(LTL::Var("a".to_string())),
        Box::new(LTL::Implies(Box::new(LTL::Var("b".to_string())), Box::new(LTL::Var("c".to_string())))),
    );
    assert_eq!(parsed, expected);
}

/// A number too large for `u32` is reported as such.
#[test]
fn test_number_too_large() {
    assert_eq!(parse_expr_all("99999999999 <= 1"), Err(ParseFail::NumberTooLarge));
}

/// The text after the formula is handed back.
#[test]
fn test_remaining_text() {
    let (rest, f) = parse_ltl("F a end.").unwrap();
    assert_eq!(rest, "end.");
    assert_eq!(f, LTL::Eventually(Box::new(LTL::Var("a".to_string()))));
}

/// Parsing the printed text of a formula gives the formula back.
#[test]
fn test_text_round_trip() {
    let f = parse_ltl_all("G (a U (!b & F c))").unwrap();
    let text = f.to_text();
    assert_eq!(text, "G (a U (!(b) & F c))");
    assert_eq!(parse_ltl_all(&text).unwrap(), f);
}

#[test]
fn test_parse_mcc() {
    let text = "Property p1 \"first\" is: G a end.\nProperty p2 \"second\" is: A F (b | c) end.\n";
    let props = ltl_forge::grammar::parse_mcc(text).unwrap();
    assert_eq!(props.len(), 2);
    assert_eq!(props[0].0, "p1");
    assert_eq!(props[0].1, LTL::Globally(Box::new(LTL::Var("a".to_string()))));
    assert_eq!(props[1].0, "p2");
    assert_eq!(
        props[1].1,
        LTL::Eventually(Box::new(LTL::Or(Box::new(LTL::Var("b".to_string())), Box::new(LTL::Var("c".to_string())))))
    );
}
