use vstd::prelude::*;
use vstd::string::*;

use crate::ltl_parser::{Formula, LTL};
use crate::xml::{digits_value, is_digit};

verus! {

/// Why a parse stopped: the text does not match, or a number does not fit in `u32`.
#[derive(Clone, Copy, PartialEq, Eq, Structural, Debug)]
pub enum ParseFail {
    Mismatch,
    NumberTooLarge,
}

/// A parse result: the formula and the position after it.
pub type Parsed = Result<(Formula, int), ParseFail>;

pub open spec fn is_space(c: char) -> bool {
    c == ' ' || c == '\t' || c == '\n' || c == '\r'
}

pub open spec fn is_alpha(c: char) -> bool {
    ('a' <= c && c <= 'z') || ('A' <= c && c <= 'Z')
}

/// Characters that may go on in a name.
pub open spec fn is_name_char(c: char) -> bool {
    is_alpha(c) || is_digit(c) || c == '_' || c == '-'
}

/// The position after the white space at `p`.
pub open spec fn skip_ws(s: Seq<char>, p: int) -> int
    decreases s.len() - p,
{
    if 0 <= p < s.len() && is_space(s[p]) {
        skip_ws(s, p + 1)
    } else {
        p
    }
}

/// `t` stands at `p`.
pub open spec fn has_tag(s: Seq<char>, p: int, t: Seq<char>) -> bool {
    0 <= p && p + t.len() <= s.len() && s.subrange(p, p + t.len()) == t
}

/// `t` with white space around it: the position after it.
pub open spec fn ws_tag(s: Seq<char>, p: int, t: Seq<char>) -> Option<int> {
    let q = skip_ws(s, p);
    if has_tag(s, q, t) {
        Some(skip_ws(s, q + t.len()))
    } else {
        None
    }
}

/// The first position from `i` on that holds a double quote, or the length.
pub open spec fn quote_end(s: Seq<char>, i: int) -> int
    decreases s.len() - i,
{
    if 0 <= i < s.len() && s[i] != '"' {
        quote_end(s, i + 1)
    } else {
        i
    }
}

/// The end of the run of name characters from `i`.
pub open spec fn name_end(s: Seq<char>, i: int) -> int
    decreases s.len() - i,
{
    if 0 <= i < s.len() && is_name_char(s[i]) {
        name_end(s, i + 1)
    } else {
        i
    }
}

/// The end of the run of digits from `i`.
pub open spec fn digits_end(s: Seq<char>, i: int) -> int
    decreases s.len() - i,
{
    if 0 <= i < s.len() && is_digit(s[i]) {
        digits_end(s, i + 1)
    } else {
        i
    }
}

/// A text in double quotes, with white space around: its contents and the position after.
pub open spec fn ws_quoted(s: Seq<char>, p: int) -> Option<(Seq<char>, int)> {
    let q = skip_ws(s, p);
    if 0 <= q < s.len() && s[q] == '"' {
        let e = quote_end(s, q + 1);
        if e < s.len() {
            Some((s.subrange(q + 1, e), skip_ws(s, e + 1)))
        } else {
            None
        }
    } else {
        None
    }
}

/// A name with white space around: a letter, `_` or `-`, then letters, digits, `_` and `-`.
pub open spec fn ws_name(s: Seq<char>, p: int) -> Option<(Seq<char>, int)> {
    let q = skip_ws(s, p);
    if 0 <= q < s.len() && (is_alpha(s[q]) || s[q] == '_' || s[q] == '-') {
        let e = name_end(s, q + 1);
        Some((s.subrange(q, e), skip_ws(s, e)))
    } else {
        None
    }
}

/// Digits with white space around.
pub open spec fn ws_digits(s: Seq<char>, p: int) -> Option<(Seq<char>, int)> {
    let q = skip_ws(s, p);
    if 0 <= q < s.len() && is_digit(s[q]) {
        let e = digits_end(s, q + 1);
        Some((s.subrange(q, e), skip_ws(s, e)))
    } else {
        None
    }
}

/// The one-letter operators, which are no variable names.
pub open spec fn reserved(name: Seq<char>) -> bool {
    name == "A"@ || name == "E"@ || name == "X"@ || name == "F"@ || name == "G"@ || name == "U"@
        || name == "R"@ || name == "W"@ || name == "M"@
}

/// `#tokens("name")`.
pub open spec fn token_count_at(s: Seq<char>, p: int) -> Option<(Seq<char>, int)> {
    match ws_tag(s, p, "#tokens"@) {
        Some(q1) => match ws_tag(s, q1, "("@) {
            Some(q2) => match ws_quoted(s, q2) {
                Some((name, q3)) => match ws_tag(s, q3, ")"@) {
                    Some(q4) => Some((name, q4)),
                    None => None,
                },
                None => None,
            },
            None => None,
        },
        None => None,
    }
}

/// `"name"?`.
pub open spec fn fireable_at(s: Seq<char>, p: int) -> Option<(Seq<char>, int)> {
    match ws_quoted(s, p) {
        Some((name, q1)) => match ws_tag(s, q1, "?"@) {
            Some(q2) => Some((name, q2)),
            None => None,
        },
        None => None,
    }
}

/// A variable: a name that is not a one-letter operator.
pub open spec fn variable_at(s: Seq<char>, p: int) -> Option<(Seq<char>, int)> {
    match ws_name(s, p) {
        Some((name, q)) => if reserved(name) {
            None
        } else {
            Some((name, q))
        },
        None => None,
    }
}

/// The result of an operand parse after `p`, with positions that go back read as a mismatch.
pub open spec fn forward(r: Parsed, p: int, n: int) -> Parsed {
    match r {
        Ok((f, q)) => if q < p || q > n {
            Err(ParseFail::Mismatch)
        } else {
            Ok((f, q))
        },
        Err(e) => Err(e),
    }
}

/// Takes off one outer "on all paths".
pub open spec fn strip_all_paths(f: Formula) -> Formula {
    match f {
        Formula::AllPaths(inner) => *inner,
        other => other,
    }
}

/// A path quantifier occurs under the boolean and temporal operators.
pub open spec fn has_path_quantifier(f: Formula) -> bool
    decreases f,
{
    match f {
        Formula::AllPaths(_) | Formula::SomePath(_) => true,
        Formula::Not(a) | Formula::Next(a) | Formula::Eventually(a) | Formula::Globally(a) => has_path_quantifier(*a),
        Formula::And(a, b) | Formula::Or(a, b) | Formula::Implies(a, b) | Formula::Until(a, b)
        | Formula::WeakUntil(a, b) | Formula::Release(a, b) | Formula::MightyRelease(a, b) => has_path_quantifier(*a)
            || has_path_quantifier(*b),
        _ => false,
    }
}

// ---- expressions ----

/// A primary expression: `true`, `false`, a token count, a fireability, a number, a variable,
/// or an expression in parentheses, tried in this order.
pub open spec fn g_e_primary(s: Seq<char>, p: int) -> Parsed
    decreases s.len() - p, 1int, 1int,
{
    if ws_tag(s, p, "true"@) is Some {
        Ok((Formula::True, ws_tag(s, p, "true"@)->Some_0))
    } else if ws_tag(s, p, "false"@) is Some {
        Ok((Formula::False, ws_tag(s, p, "false"@)->Some_0))
    } else if token_count_at(s, p) is Some {
        Ok((Formula::TokenCount(token_count_at(s, p)->Some_0.0), token_count_at(s, p)->Some_0.1))
    } else if fireable_at(s, p) is Some {
        Ok((Formula::Fireable(fireable_at(s, p)->Some_0.0), fireable_at(s, p)->Some_0.1))
    } else if ws_digits(s, p) is Some {
        let (d, q) = ws_digits(s, p)->Some_0;
        if digits_value(d) <= u32::MAX {
            Ok((Formula::Number(digits_value(d) as u32), q))
        } else {
            Err(ParseFail::NumberTooLarge)
        }
    } else if variable_at(s, p) is Some {
        Ok((Formula::Var(variable_at(s, p)->Some_0.0), variable_at(s, p)->Some_0.1))
    } else if ws_tag(s, p, "("@) is Some {
        let q = ws_tag(s, p, "("@)->Some_0;
        if q <= p || q > s.len() {
            Err(ParseFail::Mismatch)
        } else {
            match g_e_implies(s, q) {
                Ok((f, q2)) => match ws_tag(s, q2, ")"@) {
                    Some(q3) => Ok((f, q3)),
                    None => Err(ParseFail::Mismatch),
                },
                Err(e) => Err(e),
            }
        }
    } else {
        Err(ParseFail::Mismatch)
    }
}

/// `!` before a negated expression, or a primary expression.
pub open spec fn g_e_not(s: Seq<char>, p: int) -> Parsed
    decreases s.len() - p, 2int, 1int,
{
    match ws_tag(s, p, "!"@) {
        Some(q) => if q <= p || q > s.len() {
            Err(ParseFail::Mismatch)
        } else {
            match g_e_not(s, q) {
                Ok((f, q2)) => Ok((Formula::Not(Box::new(f)), q2)),
                Err(ParseFail::NumberTooLarge) => Err(ParseFail::NumberTooLarge),
                Err(ParseFail::Mismatch) => g_e_primary(s, p),
            }
        },
        None => g_e_primary(s, p),
    }
}

/// A comparison with the right operand after `op`.
pub open spec fn compare_rest(s: Seq<char>, l: Formula, q: int, op: int) -> Parsed
    decreases s.len() - q, 2int, 2int,
{
    match g_e_not(s, q) {
        Ok((r, q2)) => Ok((
            if op == 0 {
                Formula::LessEqual(Box::new(l), Box::new(r))
            } else if op == 1 {
                Formula::GreaterEqual(Box::new(l), Box::new(r))
            } else if op == 2 {
                Formula::Greater(Box::new(l), Box::new(r))
            } else {
                Formula::Less(Box::new(l), Box::new(r))
            },
            q2,
        )),
        Err(e) => Err(e),
    }
}

/// A negated expression, with `<=`, `>=`, `>` or `<` and a second one after it.
pub open spec fn g_e_compare(s: Seq<char>, p: int) -> Parsed
    decreases s.len() - p, 3int, 1int,
{
    match forward(g_e_not(s, p), p, s.len() as int) {
        Ok((l, p1)) => if ws_tag(s, p1, "<="@) is Some && ws_tag(s, p1, "<="@)->Some_0 > p && ws_tag(s, p1, "<="@)->Some_0 <= s.len() {
            compare_rest(s, l, ws_tag(s, p1, "<="@)->Some_0, 0)
        } else if ws_tag(s, p1, ">="@) is Some && ws_tag(s, p1, ">="@)->Some_0 > p && ws_tag(s, p1, ">="@)->Some_0 <= s.len() {
            compare_rest(s, l, ws_tag(s, p1, ">="@)->Some_0, 1)
        } else if ws_tag(s, p1, ">"@) is Some && ws_tag(s, p1, ">"@)->Some_0 > p && ws_tag(s, p1, ">"@)->Some_0 <= s.len() {
            compare_rest(s, l, ws_tag(s, p1, ">"@)->Some_0, 2)
        } else if ws_tag(s, p1, "<"@) is Some && ws_tag(s, p1, "<"@)->Some_0 > p && ws_tag(s, p1, "<"@)->Some_0 <= s.len() {
            compare_rest(s, l, ws_tag(s, p1, "<"@)->Some_0, 3)
        } else {
            Ok((l, p1))
        },
        Err(e) => Err(e),
    }
}

/// The operator of a conjunction or disjunction at `p`: the doubled form first.
pub open spec fn ws_op2(s: Seq<char>, p: int, long: Seq<char>, short: Seq<char>) -> Option<int> {
    if ws_tag(s, p, long) is Some {
        ws_tag(s, p, long)
    } else {
        ws_tag(s, p, short)
    }
}

/// More conjuncts after `e`, joined to the left.
pub open spec fn g_e_and_more(s: Seq<char>, e: Formula, p: int) -> Parsed
    decreases s.len() - p, 4int, 0int,
{
    match ws_op2(s, p, "&&"@, "&"@) {
        Some(q) => if q <= p || q > s.len() {
            Ok((e, p))
        } else {
            match forward(g_e_compare(s, q), q, s.len() as int) {
                Ok((r, q2)) => g_e_and_more(s, Formula::And(Box::new(e), Box::new(r)), q2),
                Err(ParseFail::NumberTooLarge) => Err(ParseFail::NumberTooLarge),
                Err(ParseFail::Mismatch) => Ok((e, p)),
            }
        },
        None => Ok((e, p)),
    }
}

pub open spec fn g_e_and(s: Seq<char>, p: int) -> Parsed
    decreases s.len() - p, 4int, 1int,
{
    match forward(g_e_compare(s, p), p, s.len() as int) {
        Ok((e, p1)) => g_e_and_more(s, e, p1),
        Err(x) => Err(x),
    }
}

/// More disjuncts after `e`, joined to the left.
pub open spec fn g_e_or_more(s: Seq<char>, e: Formula, p: int) -> Parsed
    decreases s.len() - p, 5int, 0int,
{
    match ws_op2(s, p, "||"@, "|"@) {
        Some(q) => if q <= p || q > s.len() {
            Ok((e, p))
        } else {
            match forward(g_e_and(s, q), q, s.len() as int) {
                Ok((r, q2)) => g_e_or_more(s, Formula::Or(Box::new(e), Box::new(r)), q2),
                Err(ParseFail::NumberTooLarge) => Err(ParseFail::NumberTooLarge),
                Err(ParseFail::Mismatch) => Ok((e, p)),
            }
        },
        None => Ok((e, p)),
    }
}

pub open spec fn g_e_or(s: Seq<char>, p: int) -> Parsed
    decreases s.len() - p, 5int, 1int,
{
    match forward(g_e_and(s, p), p, s.len() as int) {
        Ok((e, p1)) => g_e_or_more(s, e, p1),
        Err(x) => Err(x),
    }
}

/// A disjunction, with `->` and an implication after it (joined to the right).
pub open spec fn g_e_implies(s: Seq<char>, p: int) -> Parsed
    decreases s.len() - p, 6int, 1int,
{
    match forward(g_e_or(s, p), p, s.len() as int) {
        Ok((l, p1)) => match ws_tag(s, p1, "->"@) {
            Some(q) => if q <= p || q > s.len() {
                Ok((l, p1))
            } else {
                match g_e_implies(s, q) {
                    Ok((r, q2)) => Ok((Formula::Implies(Box::new(l), Box::new(r)), q2)),
                    Err(ParseFail::NumberTooLarge) => Err(ParseFail::NumberTooLarge),
                    Err(ParseFail::Mismatch) => Ok((l, p1)),
                }
            },
            None => Ok((l, p1)),
        },
        Err(x) => Err(x),
    }
}

// ---- temporal formulas ----

/// A formula in parentheses (read as a whole formula), or else a primary expression.
pub open spec fn g_l_primary(s: Seq<char>, p: int) -> Parsed
    decreases s.len() - p, 7int, 1int,
{
    match ws_tag(s, p, "("@) {
        Some(q) => if q <= p || q > s.len() {
            g_e_primary(s, p)
        } else {
            match g_ltl(s, q) {
                Ok((f, q2)) => match ws_tag(s, q2, ")"@) {
                    Some(q3) => Ok((f, q3)),
                    None => g_e_primary(s, p),
                },
                Err(ParseFail::NumberTooLarge) => Err(ParseFail::NumberTooLarge),
                Err(ParseFail::Mismatch) => g_e_primary(s, p),
            }
        },
        None => g_e_primary(s, p),
    }
}

/// The unary operator with number `k`: `!`, `A`, `E`, `X`, `F`, `G`.
pub open spec fn unary_op(k: int) -> Seq<char> {
    if k == 0 {
        "!"@
    } else if k == 1 {
        "A"@
    } else if k == 2 {
        "E"@
    } else if k == 3 {
        "X"@
    } else if k == 4 {
        "F"@
    } else {
        "G"@
    }
}

/// The formula with the unary operator with number `k` in front.
pub open spec fn unary_wrap(k: int, f: Formula) -> Formula {
    if k == 0 {
        Formula::Not(Box::new(f))
    } else if k == 1 {
        Formula::AllPaths(Box::new(f))
    } else if k == 2 {
        Formula::SomePath(Box::new(f))
    } else if k == 3 {
        Formula::Next(Box::new(f))
    } else if k == 4 {
        Formula::Eventually(Box::new(f))
    } else {
        Formula::Globally(Box::new(f))
    }
}

/// The unary operators from number `k` on, tried in turn, then a primary formula.
pub open spec fn g_l_unary_from(s: Seq<char>, p: int, k: int) -> Parsed
    decreases s.len() - p, 8int, 6 - k,
{
    if k >= 6 || k < 0 {
        g_l_primary(s, p)
    } else {
        match ws_tag(s, p, unary_op(k)) {
            Some(q) => if q <= p || q > s.len() {
                g_l_unary_from(s, p, k + 1)
            } else {
                match g_l_unary_from(s, q, 0) {
                    Ok((f, q2)) => Ok((unary_wrap(k, f), q2)),
                    Err(ParseFail::NumberTooLarge) => Err(ParseFail::NumberTooLarge),
                    Err(ParseFail::Mismatch) => g_l_unary_from(s, p, k + 1),
                }
            },
            None => g_l_unary_from(s, p, k + 1),
        }
    }
}

/// More conjuncts of unary formulas after `e`, joined to the left.
pub open spec fn g_l_and_more(s: Seq<char>, e: Formula, p: int) -> Parsed
    decreases s.len() - p, 9int, 0int,
{
    match ws_op2(s, p, "&&"@, "&"@) {
        Some(q) => if q <= p || q > s.len() {
            Ok((e, p))
        } else {
            match forward(g_l_unary_from(s, q, 0), q, s.len() as int) {
                Ok((r, q2)) => g_l_and_more(s, Formula::And(Box::new(e), Box::new(r)), q2),
                Err(ParseFail::NumberTooLarge) => Err(ParseFail::NumberTooLarge),
                Err(ParseFail::Mismatch) => Ok((e, p)),
            }
        },
        None => Ok((e, p)),
    }
}

pub open spec fn g_l_and(s: Seq<char>, p: int) -> Parsed
    decreases s.len() - p, 9int, 1int,
{
    match forward(g_l_unary_from(s, p, 0), p, s.len() as int) {
        Ok((e, p1)) => g_l_and_more(s, e, p1),
        Err(x) => Err(x),
    }
}

/// More disjuncts after `e`, joined to the left.
pub open spec fn g_l_or_more(s: Seq<char>, e: Formula, p: int) -> Parsed
    decreases s.len() - p, 10int, 0int,
{
    match ws_op2(s, p, "||"@, "|"@) {
        Some(q) => if q <= p || q > s.len() {
            Ok((e, p))
        } else {
            match forward(g_l_and(s, q), q, s.len() as int) {
                Ok((r, q2)) => g_l_or_more(s, Formula::Or(Box::new(e), Box::new(r)), q2),
                Err(ParseFail::NumberTooLarge) => Err(ParseFail::NumberTooLarge),
                Err(ParseFail::Mismatch) => Ok((e, p)),
            }
        },
        None => Ok((e, p)),
    }
}

pub open spec fn g_l_or(s: Seq<char>, p: int) -> Parsed
    decreases s.len() - p, 10int, 1int,
{
    match forward(g_l_and(s, p), p, s.len() as int) {
        Ok((e, p1)) => g_l_or_more(s, e, p1),
        Err(x) => Err(x),
    }
}

/// The binary operator of level `lv` (0 `U`, 1 `R`, 2 `W`, 3 `M`, 4 `->`).
pub open spec fn binary_op(lv: int) -> Seq<char> {
    if lv == 0 {
        "U"@
    } else if lv == 1 {
        "R"@
    } else if lv == 2 {
        "W"@
    } else if lv == 3 {
        "M"@
    } else {
        "->"@
    }
}

pub open spec fn binary_wrap(lv: int, l: Formula, r: Formula) -> Formula {
    if lv == 0 {
        Formula::Until(Box::new(l), Box::new(r))
    } else if lv == 1 {
        Formula::Release(Box::new(l), Box::new(r))
    } else if lv == 2 {
        Formula::WeakUntil(Box::new(l), Box::new(r))
    } else if lv == 3 {
        Formula::MightyRelease(Box::new(l), Box::new(r))
    } else {
        Formula::Implies(Box::new(l), Box::new(r))
    }
}

/// Level `lv` of the binary temporal operators, each joined to the right: the level below,
/// with the operator and this level after it.
pub open spec fn g_l_binary(s: Seq<char>, p: int, lv: int) -> Parsed
    decreases s.len() - p, 11int, if 0 <= lv <= 4 { lv + 1 } else { 0 },
{
    let below = if lv <= 0 || lv > 4 {
        g_l_or(s, p)
    } else {
        g_l_binary(s, p, lv - 1)
    };
    match forward(below, p, s.len() as int) {
        Ok((l, p1)) => match ws_tag(s, p1, binary_op(lv)) {
            Some(q) => if q <= p || q > s.len() {
                Ok((l, p1))
            } else {
                match g_l_binary(s, q, lv) {
                    Ok((r, q2)) => Ok((binary_wrap(lv, l, r), q2)),
                    Err(ParseFail::NumberTooLarge) => Err(ParseFail::NumberTooLarge),
                    Err(ParseFail::Mismatch) => Ok((l, p1)),
                }
            },
            None => Ok((l, p1)),
        },
        Err(x) => Err(x),
    }
}

/// A whole formula: one outer "on all paths" taken off, and no path quantifier left inside.
pub open spec fn g_ltl(s: Seq<char>, p: int) -> Parsed
    decreases s.len() - p, 12int, 0int,
{
    match g_l_binary(s, p, 4) {
        Ok((f, q)) => {
            let g = strip_all_paths(f);
            if has_path_quantifier(g) {
                Err(ParseFail::Mismatch)
            } else {
                Ok((g, q))
            }
        },
        Err(x) => Err(x),
    }
}

// ---- executable parser ----

/// A parse result of the executable parser.
pub type ParseResult = Result<(LTL, usize), ParseFail>;

/// The executable result agrees with the grammar, and positions move forward within the text.
pub open spec fn agrees(r: ParseResult, sp: Parsed, p: int, n: int) -> bool {
    match r {
        Ok((f, q)) => sp == Parsed::Ok((f@, q as int)) && p <= q <= n,
        Err(e) => sp == Parsed::Err(e),
    }
}

/// The characters of a text.
pub fn chars_of(input: &str) -> (r: Vec<char>)
    ensures
        r@ == input@,
{
    let n = input.unicode_len();
    let mut r: Vec<char> = Vec::new();
    let mut i: usize = 0;
    while i < n
        invariant
            n == input@.len(),
            i <= n,
            r@ == input@.take(i as int),
        decreases n - i,
    {
        r.push(input.get_char(i));
        assert(r@ =~= input@.take(i + 1));
        i = i + 1;
    }
    assert(input@.take(n as int) =~= input@);
    r
}

proof fn lemma_skip_ws_range(s: Seq<char>, p: int)
    requires
        0 <= p <= s.len(),
    ensures
        p <= skip_ws(s, p) <= s.len(),
    decreases s.len() - p,
{
    if p < s.len() && is_space(s[p]) {
        lemma_skip_ws_range(s, p + 1);
    }
}

fn skip_ws_exec(s: &Vec<char>, p: usize) -> (r: usize)
    requires
        p <= s@.len(),
    ensures
        r == skip_ws(s@, p as int),
        p <= r <= s@.len(),
    decreases s@.len() - p,
{
    if p < s.len() && (s[p] == ' ' || s[p] == '\t' || s[p] == '\n' || s[p] == '\r') {
        skip_ws_exec(s, p + 1)
    } else {
        p
    }
}

fn has_tag_exec(s: &Vec<char>, p: usize, t: &str) -> (r: bool)
    requires
        p <= s@.len(),
    ensures
        r == has_tag(s@, p as int, t@),
{
    let m = t.unicode_len();
    let n = s.len();
    if m > n - p {
        return false;
    }
    let mut i: usize = 0;
    while i < m
        invariant
            m == t@.len(),
            n == s@.len(),
            p + m <= n,
            i <= m,
            forall|j: int| 0 <= j < i ==> s@[p + j] == t@[j],
        decreases m - i,
    {
        if s[p + i] != t.get_char(i) {
            assert(s@.subrange(p as int, p + m)[i as int] != t@[i as int]);
            return false;
        }
        i = i + 1;
    }
    assert(s@.subrange(p as int, p + m) =~= t@);
    true
}

fn ws_tag_exec(s: &Vec<char>, p: usize, t: &str) -> (r: Option<usize>)
    requires
        p <= s@.len(),
    ensures
        r == (match ws_tag(s@, p as int, t@) {
            Some(q) => Some(q as usize),
            None => None::<usize>,
        }),
        r matches Some(q) ==> p <= q <= s@.len() && ws_tag(s@, p as int, t@) == Some(q as int) && p + t@.len() <= q,
{
    let n = s.len();
    let q = skip_ws_exec(s, p);
    if has_tag_exec(s, q, t) {
        let e = q + t.unicode_len();
        let r = skip_ws_exec(s, e);
        Some(r)
    } else {
        None
    }
}

fn ws_op2_exec(s: &Vec<char>, p: usize, long: &str, short: &str) -> (r: Option<usize>)
    requires
        p <= s@.len(),
    ensures
        r matches Some(q) ==> p <= q <= s@.len() && ws_op2(s@, p as int, long@, short@) == Some(q as int),
        r is None ==> ws_op2(s@, p as int, long@, short@) is None,
{
    match ws_tag_exec(s, p, long) {
        Some(q) => Some(q),
        None => ws_tag_exec(s, p, short),
    }
}

fn quote_end_exec(s: &Vec<char>, i: usize) -> (r: usize)
    requires
        i <= s@.len(),
    ensures
        r == quote_end(s@, i as int),
        i <= r <= s@.len(),
    decreases s@.len() - i,
{
    if i < s.len() && s[i] != '"' {
        quote_end_exec(s, i + 1)
    } else {
        i
    }
}

fn name_end_exec(s: &Vec<char>, i: usize) -> (r: usize)
    requires
        i <= s@.len(),
    ensures
        r == name_end(s@, i as int),
        i <= r <= s@.len(),
    decreases s@.len() - i,
{
    if i < s.len() && is_name_char_exec(s[i]) {
        name_end_exec(s, i + 1)
    } else {
        i
    }
}

fn is_name_char_exec(c: char) -> (r: bool)
    ensures
        r == is_name_char(c),
{
    ('a' <= c && c <= 'z') || ('A' <= c && c <= 'Z') || ('0' <= c && c <= '9') || c == '_' || c == '-'
}

fn digits_end_exec(s: &Vec<char>, i: usize) -> (r: usize)
    requires
        i <= s@.len(),
    ensures
        r == digits_end(s@, i as int),
        i <= r <= s@.len(),
    decreases s@.len() - i,
{
    if i < s.len() && '0' <= s[i] && s[i] <= '9' {
        digits_end_exec(s, i + 1)
    } else {
        i
    }
}

fn text_between(input: &str, s: &Vec<char>, a: usize, b: usize) -> (r: String)
    requires
        s@ == input@,
        a <= b <= s@.len(),
    ensures
        r@ == s@.subrange(a as int, b as int),
{
    String::from_str(input.substring_char(a, b))
}

fn ws_quoted_exec(input: &str, s: &Vec<char>, p: usize) -> (r: Option<(String, usize)>)
    requires
        s@ == input@,
        p <= s@.len(),
    ensures
        r matches Some(x) ==> ws_quoted(s@, p as int) == Some((x.0@, x.1 as int)) && p <= x.1 <= s@.len(),
        r is None ==> ws_quoted(s@, p as int) is None,
{
    let q = skip_ws_exec(s, p);
    if q < s.len() && s[q] == '"' {
        let e = quote_end_exec(s, q + 1);
        if e < s.len() {
            let name = text_between(input, s, q + 1, e);
            let r = skip_ws_exec(s, e + 1);
            Some((name, r))
        } else {
            None
        }
    } else {
        None
    }
}

fn ws_name_exec(input: &str, s: &Vec<char>, p: usize) -> (r: Option<(String, usize)>)
    requires
        s@ == input@,
        p <= s@.len(),
    ensures
        r matches Some(x) ==> ws_name(s@, p as int) == Some((x.0@, x.1 as int)) && p <= x.1 <= s@.len(),
        r is None ==> ws_name(s@, p as int) is None,
{
    let q = skip_ws_exec(s, p);
    if q < s.len() && (('a' <= s[q] && s[q] <= 'z') || ('A' <= s[q] && s[q] <= 'Z') || s[q] == '_' || s[q] == '-') {
        let e = name_end_exec(s, q + 1);
        let name = text_between(input, s, q, e);
        let r = skip_ws_exec(s, e);
        Some((name, r))
    } else {
        None
    }
}

/// Digits with white space around: their value (`None` when it does not fit) and the position
/// after them.
fn ws_digits_exec(s: &Vec<char>, p: usize) -> (r: Option<(Option<u32>, usize)>)
    requires
        p <= s@.len(),
    ensures
        r matches Some(x) ==> ws_digits(s@, p as int) is Some && ws_digits(s@, p as int)->Some_0.1 == x.1 as int
            && p <= x.1 <= s@.len() && (x.0 matches Some(v) ==> digits_value(ws_digits(s@, p as int)->Some_0.0) == v as int)
            && (x.0 is None ==> digits_value(ws_digits(s@, p as int)->Some_0.0) > u32::MAX),
        r is None ==> ws_digits(s@, p as int) is None,
{
    let q = skip_ws_exec(s, p);
    if q < s.len() && '0' <= s[q] && s[q] <= '9' {
        let e = digits_end_exec(s, q + 1);
        let ghost d = s@.subrange(q as int, e as int);
        proof {
            lemma_digits_run(s@, q as int + 1);
            assert forall|j: int| 0 <= j < d.len() implies is_digit(#[trigger] d[j]) by {
                if j > 0 {
                    assert(d[j] == s@[q + j]);
                }
            }
        }
        let mut value: u64 = 0;
        let mut ok = true;
        let mut i: usize = q;
        while i < e
            invariant
                q <= i <= e,
                e <= s@.len(),
                d == s@.subrange(q as int, e as int),
                forall|j: int| 0 <= j < d.len() ==> is_digit(#[trigger] d[j]),
                ok ==> value == digits_value(d.take(i - q)) && value <= u32::MAX,
                !ok ==> digits_value(d) > u32::MAX,
            decreases e - i,
        {
            if ok {
                let c = s[i];
                assert(c == d[i - q]);
                let digit = (c as u32 - '0' as u32) as u64;
                assert(d.take(i - q + 1).drop_last() =~= d.take(i - q));
                value = value * 10 + digit;
                if value > u32::MAX as u64 {
                    proof {
                        crate::xml::lemma_digits_value_mono(d, i - q + 1);
                    }
                    ok = false;
                }
            }
            i = i + 1;
        }
        assert(d.take(e - q) =~= d);
        let r = skip_ws_exec(s, e);
        if ok {
            Some((Some(value as u32), r))
        } else {
            Some((None, r))
        }
    } else {
        None
    }
}

proof fn lemma_digits_run(s: Seq<char>, i: int)
    requires
        0 <= i <= s.len(),
    ensures
        forall|j: int| i <= j < digits_end(s, i) ==> is_digit(#[trigger] s[j]),
        i <= digits_end(s, i) <= s.len(),
    decreases s.len() - i,
{
    if i < s.len() && is_digit(s[i]) {
        lemma_digits_run(s, i + 1);
    }
}

fn token_count_exec(input: &str, s: &Vec<char>, p: usize) -> (r: Option<(String, usize)>)
    requires
        s@ == input@,
        p <= s@.len(),
    ensures
        r matches Some(x) ==> token_count_at(s@, p as int) == Some((x.0@, x.1 as int)) && p <= x.1 <= s@.len(),
        r is None ==> token_count_at(s@, p as int) is None,
{
    let q1 = match ws_tag_exec(s, p, "#tokens") {
        Some(q) => q,
        None => { return None; },
    };
    let q2 = match ws_tag_exec(s, q1, "(") {
        Some(q) => q,
        None => { return None; },
    };
    let (name, q3) = match ws_quoted_exec(input, s, q2) {
        Some(x) => x,
        None => { return None; },
    };
    match ws_tag_exec(s, q3, ")") {
        Some(q4) => Some((name, q4)),
        None => None,
    }
}

fn fireable_exec(input: &str, s: &Vec<char>, p: usize) -> (r: Option<(String, usize)>)
    requires
        s@ == input@,
        p <= s@.len(),
    ensures
        r matches Some(x) ==> fireable_at(s@, p as int) == Some((x.0@, x.1 as int)) && p <= x.1 <= s@.len(),
        r is None ==> fireable_at(s@, p as int) is None,
{
    let (name, q1) = match ws_quoted_exec(input, s, p) {
        Some(x) => x,
        None => { return None; },
    };
    match ws_tag_exec(s, q1, "?") {
        Some(q2) => Some((name, q2)),
        None => None,
    }
}

fn is_reserved(name: &String) -> (r: bool)
    ensures
        r == reserved(name@),
{
    let t = name.as_str();
    crate::xml::str_equal(t, "A") || crate::xml::str_equal(t, "E") || crate::xml::str_equal(t, "X")
        || crate::xml::str_equal(t, "F") || crate::xml::str_equal(t, "G") || crate::xml::str_equal(t, "U")
        || crate::xml::str_equal(t, "R") || crate::xml::str_equal(t, "W") || crate::xml::str_equal(t, "M")
}

fn variable_exec(input: &str, s: &Vec<char>, p: usize) -> (r: Option<(String, usize)>)
    requires
        s@ == input@,
        p <= s@.len(),
    ensures
        r matches Some(x) ==> variable_at(s@, p as int) == Some((x.0@, x.1 as int)) && p <= x.1 <= s@.len(),
        r is None ==> variable_at(s@, p as int) is None,
{
    match ws_name_exec(input, s, p) {
        Some((name, q)) => if is_reserved(&name) {
            None
        } else {
            Some((name, q))
        },
        None => None,
    }
}

fn e_primary(input: &str, s: &Vec<char>, p: usize) -> (r: ParseResult)
    requires
        s@ == input@,
        p <= s@.len(),
    ensures
        agrees(r, g_e_primary(s@, p as int), p as int, s@.len() as int),
    decreases s@.len() - p, 1int, 1int,
{
    if let Some(q) = ws_tag_exec(s, p, "true") {
        return Ok((LTL::True, q));
    }
    if let Some(q) = ws_tag_exec(s, p, "false") {
        return Ok((LTL::False, q));
    }
    if let Some((name, q)) = token_count_exec(input, s, p) {
        return Ok((LTL::TokenCount(name), q));
    }
    if let Some((name, q)) = fireable_exec(input, s, p) {
        return Ok((LTL::Fireable(name), q));
    }
    if let Some((value, q)) = ws_digits_exec(s, p) {
        return match value {
            Some(v) => Ok((LTL::Number(v), q)),
            None => Err(ParseFail::NumberTooLarge),
        };
    }
    if let Some((name, q)) = variable_exec(input, s, p) {
        return Ok((LTL::Var(name), q));
    }
    if let Some(q) = ws_tag_exec(s, p, "(") {
        if q <= p || q > s.len() {
            return Err(ParseFail::Mismatch);
        }
        return match e_implies(input, s, q) {
            Ok((f, q2)) => match ws_tag_exec(s, q2, ")") {
                Some(q3) => Ok((f, q3)),
                None => Err(ParseFail::Mismatch),
            },
            Err(e) => Err(e),
        };
    }
    Err(ParseFail::Mismatch)
}

fn e_not(input: &str, s: &Vec<char>, p: usize) -> (r: ParseResult)
    requires
        s@ == input@,
        p <= s@.len(),
    ensures
        agrees(r, g_e_not(s@, p as int), p as int, s@.len() as int),
    decreases s@.len() - p, 2int, 1int,
{
    match ws_tag_exec(s, p, "!") {
        Some(q) => if q <= p || q > s.len() {
            Err(ParseFail::Mismatch)
        } else {
            match e_not(input, s, q) {
                Ok((f, q2)) => Ok((LTL::Not(Box::new(f)), q2)),
                Err(ParseFail::NumberTooLarge) => Err(ParseFail::NumberTooLarge),
                Err(ParseFail::Mismatch) => e_primary(input, s, p),
            }
        },
        None => e_primary(input, s, p),
    }
}

fn compare_rest_exec(input: &str, s: &Vec<char>, l: LTL, q: usize, op: u8) -> (r: ParseResult)
    requires
        s@ == input@,
        q <= s@.len(),
        op < 4,
    ensures
        agrees(r, compare_rest(s@, l@, q as int, op as int), q as int, s@.len() as int),
    decreases s@.len() - q, 2int, 2int,
{
    match e_not(input, s, q) {
        Ok((rhs, q2)) => {
            let f = if op == 0 {
                LTL::LessEqual(Box::new(l), Box::new(rhs))
            } else if op == 1 {
                LTL::GreaterEqual(Box::new(l), Box::new(rhs))
            } else if op == 2 {
                LTL::Greater(Box::new(l), Box::new(rhs))
            } else {
                LTL::Less(Box::new(l), Box::new(rhs))
            };
            Ok((f, q2))
        },
        Err(e) => Err(e),
    }
}

#[verifier::rlimit(40)]
fn e_compare(input: &str, s: &Vec<char>, p: usize) -> (r: ParseResult)
    requires
        s@ == input@,
        p <= s@.len(),
    ensures
        agrees(r, g_e_compare(s@, p as int), p as int, s@.len() as int),
    decreases s@.len() - p, 3int, 1int,
{
    proof {
        reveal_strlit("<=");
        reveal_strlit(">=");
        reveal_strlit(">");
        reveal_strlit("<");
    }
    match e_not(input, s, p) {
        Ok((l, p1)) => {
            if let Some(q) = ws_tag_exec(s, p1, "<=") {
                return compare_rest_exec(input, s, l, q, 0);
            }
            if let Some(q) = ws_tag_exec(s, p1, ">=") {
                return compare_rest_exec(input, s, l, q, 1);
            }
            if let Some(q) = ws_tag_exec(s, p1, ">") {
                return compare_rest_exec(input, s, l, q, 2);
            }
            if let Some(q) = ws_tag_exec(s, p1, "<") {
                return compare_rest_exec(input, s, l, q, 3);
            }
            Ok((l, p1))
        },
        Err(e) => Err(e),
    }
}

fn e_and(input: &str, s: &Vec<char>, p: usize) -> (r: ParseResult)
    requires
        s@ == input@,
        p <= s@.len(),
    ensures
        agrees(r, g_e_and(s@, p as int), p as int, s@.len() as int),
    decreases s@.len() - p, 4int, 1int,
{
    match e_compare(input, s, p) {
        Ok((e, p1)) => e_and_more(input, s, e, p1),
        Err(x) => Err(x),
    }
}

fn e_and_more(input: &str, s: &Vec<char>, e: LTL, p: usize) -> (r: ParseResult)
    requires
        s@ == input@,
        p <= s@.len(),
    ensures
        agrees(r, g_e_and_more(s@, e@, p as int), p as int, s@.len() as int),
    decreases s@.len() - p, 4int, 0int,
{
    match ws_op2_exec(s, p, "&&", "&") {
        Some(q) => if q <= p || q > s.len() {
            Ok((e, p))
        } else {
            match e_compare(input, s, q) {
                Ok((rhs, q2)) => e_and_more(input, s, LTL::And(Box::new(e), Box::new(rhs)), q2),
                Err(ParseFail::NumberTooLarge) => Err(ParseFail::NumberTooLarge),
                Err(ParseFail::Mismatch) => Ok((e, p)),
            }
        },
        None => Ok((e, p)),
    }
}

fn e_or(input: &str, s: &Vec<char>, p: usize) -> (r: ParseResult)
    requires
        s@ == input@,
        p <= s@.len(),
    ensures
        agrees(r, g_e_or(s@, p as int), p as int, s@.len() as int),
    decreases s@.len() - p, 5int, 1int,
{
    match e_and(input, s, p) {
        Ok((e, p1)) => e_or_more(input, s, e, p1),
        Err(x) => Err(x),
    }
}

fn e_or_more(input: &str, s: &Vec<char>, e: LTL, p: usize) -> (r: ParseResult)
    requires
        s@ == input@,
        p <= s@.len(),
    ensures
        agrees(r, g_e_or_more(s@, e@, p as int), p as int, s@.len() as int),
    decreases s@.len() - p, 5int, 0int,
{
    match ws_op2_exec(s, p, "||", "|") {
        Some(q) => if q <= p || q > s.len() {
            Ok((e, p))
        } else {
            match e_and(input, s, q) {
                Ok((rhs, q2)) => e_or_more(input, s, LTL::Or(Box::new(e), Box::new(rhs)), q2),
                Err(ParseFail::NumberTooLarge) => Err(ParseFail::NumberTooLarge),
                Err(ParseFail::Mismatch) => Ok((e, p)),
            }
        },
        None => Ok((e, p)),
    }
}

fn e_implies(input: &str, s: &Vec<char>, p: usize) -> (r: ParseResult)
    requires
        s@ == input@,
        p <= s@.len(),
    ensures
        agrees(r, g_e_implies(s@, p as int), p as int, s@.len() as int),
    decreases s@.len() - p, 6int, 1int,
{
    match e_or(input, s, p) {
        Ok((l, p1)) => match ws_tag_exec(s, p1, "->") {
            Some(q) => if q <= p || q > s.len() {
                Ok((l, p1))
            } else {
                match e_implies(input, s, q) {
                    Ok((rhs, q2)) => Ok((LTL::Implies(Box::new(l), Box::new(rhs)), q2)),
                    Err(ParseFail::NumberTooLarge) => Err(ParseFail::NumberTooLarge),
                    Err(ParseFail::Mismatch) => Ok((l, p1)),
                }
            },
            None => Ok((l, p1)),
        },
        Err(x) => Err(x),
    }
}

fn l_primary(input: &str, s: &Vec<char>, p: usize) -> (r: ParseResult)
    requires
        s@ == input@,
        p <= s@.len(),
    ensures
        agrees(r, g_l_primary(s@, p as int), p as int, s@.len() as int),
    decreases s@.len() - p, 7int, 1int,
{
    match ws_tag_exec(s, p, "(") {
        Some(q) => if q <= p || q > s.len() {
            e_primary(input, s, p)
        } else {
            match ltl_at(input, s, q) {
                Ok((f, q2)) => match ws_tag_exec(s, q2, ")") {
                    Some(q3) => Ok((f, q3)),
                    None => e_primary(input, s, p),
                },
                Err(ParseFail::NumberTooLarge) => Err(ParseFail::NumberTooLarge),
                Err(ParseFail::Mismatch) => e_primary(input, s, p),
            }
        },
        None => e_primary(input, s, p),
    }
}

fn unary_op_exec(k: u8) -> (r: &'static str)
    requires
        k < 6,
    ensures
        r@ == unary_op(k as int),
{
    if k == 0 {
        "!"
    } else if k == 1 {
        "A"
    } else if k == 2 {
        "E"
    } else if k == 3 {
        "X"
    } else if k == 4 {
        "F"
    } else {
        "G"
    }
}

fn unary_wrap_exec(k: u8, f: LTL) -> (r: LTL)
    requires
        k < 6,
    ensures
        r@ == unary_wrap(k as int, f@),
{
    if k == 0 {
        LTL::Not(Box::new(f))
    } else if k == 1 {
        LTL::AllPaths(Box::new(f))
    } else if k == 2 {
        LTL::SomePath(Box::new(f))
    } else if k == 3 {
        LTL::Next(Box::new(f))
    } else if k == 4 {
        LTL::Eventually(Box::new(f))
    } else {
        LTL::Globally(Box::new(f))
    }
}

fn l_unary_from(input: &str, s: &Vec<char>, p: usize, k: u8) -> (r: ParseResult)
    requires
        s@ == input@,
        p <= s@.len(),
        k <= 6,
    ensures
        agrees(r, g_l_unary_from(s@, p as int, k as int), p as int, s@.len() as int),
    decreases s@.len() - p, 8int, 6 - k,
{
    if k >= 6 {
        return l_primary(input, s, p);
    }
    match ws_tag_exec(s, p, unary_op_exec(k)) {
        Some(q) => if q <= p || q > s.len() {
            l_unary_from(input, s, p, k + 1)
        } else {
            match l_unary_from(input, s, q, 0) {
                Ok((f, q2)) => Ok((unary_wrap_exec(k, f), q2)),
                Err(ParseFail::NumberTooLarge) => Err(ParseFail::NumberTooLarge),
                Err(ParseFail::Mismatch) => l_unary_from(input, s, p, k + 1),
            }
        },
        None => l_unary_from(input, s, p, k + 1),
    }
}

fn l_and(input: &str, s: &Vec<char>, p: usize) -> (r: ParseResult)
    requires
        s@ == input@,
        p <= s@.len(),
    ensures
        agrees(r, g_l_and(s@, p as int), p as int, s@.len() as int),
    decreases s@.len() - p, 9int, 1int,
{
    match l_unary_from(input, s, p, 0) {
        Ok((e, p1)) => l_and_more(input, s, e, p1),
        Err(x) => Err(x),
    }
}

fn l_and_more(input: &str, s: &Vec<char>, e: LTL, p: usize) -> (r: ParseResult)
    requires
        s@ == input@,
        p <= s@.len(),
    ensures
        agrees(r, g_l_and_more(s@, e@, p as int), p as int, s@.len() as int),
    decreases s@.len() - p, 9int, 0int,
{
    match ws_op2_exec(s, p, "&&", "&") {
        Some(q) => if q <= p || q > s.len() {
            Ok((e, p))
        } else {
            match l_unary_from(input, s, q, 0) {
                Ok((rhs, q2)) => l_and_more(input, s, LTL::And(Box::new(e), Box::new(rhs)), q2),
                Err(ParseFail::NumberTooLarge) => Err(ParseFail::NumberTooLarge),
                Err(ParseFail::Mismatch) => Ok((e, p)),
            }
        },
        None => Ok((e, p)),
    }
}

fn l_or(input: &str, s: &Vec<char>, p: usize) -> (r: ParseResult)
    requires
        s@ == input@,
        p <= s@.len(),
    ensures
        agrees(r, g_l_or(s@, p as int), p as int, s@.len() as int),
    decreases s@.len() - p, 10int, 1int,
{
    match l_and(input, s, p) {
        Ok((e, p1)) => l_or_more(input, s, e, p1),
        Err(x) => Err(x),
    }
}

fn l_or_more(input: &str, s: &Vec<char>, e: LTL, p: usize) -> (r: ParseResult)
    requires
        s@ == input@,
        p <= s@.len(),
    ensures
        agrees(r, g_l_or_more(s@, e@, p as int), p as int, s@.len() as int),
    decreases s@.len() - p, 10int, 0int,
{
    match ws_op2_exec(s, p, "||", "|") {
        Some(q) => if q <= p || q > s.len() {
            Ok((e, p))
        } else {
            match l_and(input, s, q) {
                Ok((rhs, q2)) => l_or_more(input, s, LTL::Or(Box::new(e), Box::new(rhs)), q2),
                Err(ParseFail::NumberTooLarge) => Err(ParseFail::NumberTooLarge),
                Err(ParseFail::Mismatch) => Ok((e, p)),
            }
        },
        None => Ok((e, p)),
    }
}

fn binary_op_exec(lv: u8) -> (r: &'static str)
    requires
        lv <= 4,
    ensures
        r@ == binary_op(lv as int),
{
    if lv == 0 {
        "U"
    } else if lv == 1 {
        "R"
    } else if lv == 2 {
        "W"
    } else if lv == 3 {
        "M"
    } else {
        "->"
    }
}

fn binary_wrap_exec(lv: u8, l: LTL, r: LTL) -> (f: LTL)
    requires
        lv <= 4,
    ensures
        f@ == binary_wrap(lv as int, l@, r@),
{
    if lv == 0 {
        LTL::Until(Box::new(l), Box::new(r))
    } else if lv == 1 {
        LTL::Release(Box::new(l), Box::new(r))
    } else if lv == 2 {
        LTL::WeakUntil(Box::new(l), Box::new(r))
    } else if lv == 3 {
        LTL::MightyRelease(Box::new(l), Box::new(r))
    } else {
        LTL::Implies(Box::new(l), Box::new(r))
    }
}

fn l_binary(input: &str, s: &Vec<char>, p: usize, lv: u8) -> (r: ParseResult)
    requires
        s@ == input@,
        p <= s@.len(),
        lv <= 4,
    ensures
        agrees(r, g_l_binary(s@, p as int, lv as int), p as int, s@.len() as int),
    decreases s@.len() - p, 11int, lv + 1,
{
    let below = if lv == 0 {
        l_or(input, s, p)
    } else {
        l_binary(input, s, p, lv - 1)
    };
    match below {
        Ok((l, p1)) => match ws_tag_exec(s, p1, binary_op_exec(lv)) {
            Some(q) => if q <= p || q > s.len() {
                Ok((l, p1))
            } else {
                match l_binary(input, s, q, lv) {
                    Ok((rhs, q2)) => Ok((binary_wrap_exec(lv, l, rhs), q2)),
                    Err(ParseFail::NumberTooLarge) => Err(ParseFail::NumberTooLarge),
                    Err(ParseFail::Mismatch) => Ok((l, p1)),
                }
            },
            None => Ok((l, p1)),
        },
        Err(x) => Err(x),
    }
}

fn has_path_quantifier_exec(f: &LTL) -> (r: bool)
    ensures
        r == has_path_quantifier(f@),
    decreases f,
{
    proof {
        crate::ltl_parser::lemma_view_variant(*f);
    }
    match f {
        LTL::AllPaths(_) | LTL::SomePath(_) => true,
        LTL::Not(a) | LTL::Next(a) | LTL::Eventually(a) | LTL::Globally(a) => has_path_quantifier_exec(a),
        LTL::And(a, b) | LTL::Or(a, b) | LTL::Implies(a, b) | LTL::Until(a, b) | LTL::WeakUntil(a, b)
        | LTL::Release(a, b) | LTL::MightyRelease(a, b) => has_path_quantifier_exec(a) || has_path_quantifier_exec(b),
        _ => false,
    }
}

fn ltl_at(input: &str, s: &Vec<char>, p: usize) -> (r: ParseResult)
    requires
        s@ == input@,
        p <= s@.len(),
    ensures
        agrees(r, g_ltl(s@, p as int), p as int, s@.len() as int),
    decreases s@.len() - p, 12int, 0int,
{
    match l_binary(input, s, p, 4) {
        Ok((f, q)) => {
            proof {
                crate::ltl_parser::lemma_view_variant(f);
            }
            let g = match f {
                LTL::AllPaths(inner) => *inner,
                other => other,
            };
            if has_path_quantifier_exec(&g) {
                Err(ParseFail::Mismatch)
            } else {
                Ok((g, q))
            }
        },
        Err(x) => Err(x),
    }
}

/// The rest of a text from a position.
fn rest_of<'a>(input: &'a str, p: usize) -> (r: &'a str)
    requires
        p <= input@.len(),
    ensures
        r@ == input@.subrange(p as int, input@.len() as int),
{
    let n = input.unicode_len();
    input.substring_char(p, n)
}

/// Parses a formula at the start of a text: the formula and the text after it. One outer "on
/// all paths" is taken off; a path quantifier anywhere else makes the parse fail.
pub fn parse_ltl(input: &str) -> (r: Result<(&str, LTL), ParseFail>)
    ensures
        match g_ltl(input@, 0) {
            Ok((f, q)) => r matches Ok(x) && x.1@ == f && x.0@ == input@.subrange(q, input@.len() as int),
            Err(e) => r == Err::<(&str, LTL), ParseFail>(e),
        },
{
    let s = chars_of(input);
    match ltl_at(input, &s, 0) {
        Ok((f, q)) => Ok((rest_of(input, q), f)),
        Err(e) => Err(e),
    }
}

/// Parses a state expression (no temporal operators) at the start of a text: the expression
/// and the text after it.
pub fn parse_expr(input: &str) -> (r: Result<(&str, LTL), ParseFail>)
    ensures
        match g_e_implies(input@, 0) {
            Ok((f, q)) => r matches Ok(x) && x.1@ == f && x.0@ == input@.subrange(q, input@.len() as int),
            Err(e) => r == Err::<(&str, LTL), ParseFail>(e),
        },
{
    let s = chars_of(input);
    match e_implies(input, &s, 0) {
        Ok((f, q)) => Ok((rest_of(input, q), f)),
        Err(e) => Err(e),
    }
}

/// One property of an MCC file: `Property name "text" is: formula end.`
pub open spec fn g_property(s: Seq<char>, p: int) -> Result<(Seq<char>, Formula, int), ParseFail> {
    match ws_tag(s, p, "Property"@) {
        Some(q1) => match ws_name(s, q1) {
            Some((name, q2)) => match ws_quoted(s, q2) {
                Some((_, q3)) => match ws_tag(s, q3, "is:"@) {
                    Some(q4) => match g_ltl(s, q4) {
                        Ok((f, q5)) => match ws_tag(s, q5, "end."@) {
                            Some(q6) => Ok((name, f, q6)),
                            None => Err(ParseFail::Mismatch),
                        },
                        Err(e) => Err(e),
                    },
                    None => Err(ParseFail::Mismatch),
                },
                None => Err(ParseFail::Mismatch),
            },
            None => Err(ParseFail::Mismatch),
        },
        None => Err(ParseFail::Mismatch),
    }
}

/// The properties one after the other from `p`, until one does not parse.
pub open spec fn g_properties(s: Seq<char>, p: int) -> Result<Seq<(Seq<char>, Formula)>, ParseFail>
    decreases s.len() - p,
{
    match g_property(s, p) {
        Ok((name, f, q)) => if q <= p || q > s.len() {
            Ok(seq![])
        } else {
            match g_properties(s, q) {
                Ok(rest) => Ok(seq![(name, f)] + rest),
                Err(e) => Err(e),
            }
        },
        Err(ParseFail::NumberTooLarge) => Err(ParseFail::NumberTooLarge),
        Err(ParseFail::Mismatch) => Ok(seq![]),
    }
}

fn property_at(input: &str, s: &Vec<char>, p: usize) -> (r: Result<(String, LTL, usize), ParseFail>)
    requires
        s@ == input@,
        p <= s@.len(),
    ensures
        match r {
            Ok(x) => g_property(s@, p as int) == Ok::<(Seq<char>, Formula, int), ParseFail>((x.0@, x.1@, x.2 as int)) && p <= x.2 <= s@.len(),
            Err(e) => g_property(s@, p as int) == Err::<(Seq<char>, Formula, int), ParseFail>(e),
        },
{
    let q1 = match ws_tag_exec(s, p, "Property") {
        Some(q) => q,
        None => { return Err(ParseFail::Mismatch); },
    };
    let (name, q2) = match ws_name_exec(input, s, q1) {
        Some(x) => x,
        None => { return Err(ParseFail::Mismatch); },
    };
    let q3 = match ws_quoted_exec(input, s, q2) {
        Some(x) => x.1,
        None => { return Err(ParseFail::Mismatch); },
    };
    let q4 = match ws_tag_exec(s, q3, "is:") {
        Some(q) => q,
        None => { return Err(ParseFail::Mismatch); },
    };
    let (f, q5) = match ltl_at(input, s, q4) {
        Ok(x) => x,
        Err(e) => { return Err(e); },
    };
    match ws_tag_exec(s, q5, "end.") {
        Some(q6) => Ok((name, f, q6)),
        None => Err(ParseFail::Mismatch),
    }
}

/// The values of a list of named formulas.
pub open spec fn named_views(v: Seq<(String, LTL)>) -> Seq<(Seq<char>, Formula)> {
    v.map_values(|x: (String, LTL)| (x.0@, x.1@))
}

/// Parses the properties of an MCC file, one after the other, until one does not parse.
pub fn parse_mcc(input: &str) -> (r: Result<Vec<(String, LTL)>, ParseFail>)
    ensures
        match g_properties(input@, 0) {
            Ok(props) => r matches Ok(v) && named_views(v@) == props,
            Err(e) => r == Err::<Vec<(String, LTL)>, ParseFail>(e),
        },
{
    let s = chars_of(input);
    let mut properties: Vec<(String, LTL)> = Vec::new();
    let mut remaining: usize = 0;
    while remaining <= s.len()
        invariant
            s@ == input@,
            remaining <= s@.len(),
            g_properties(s@, 0) == (match g_properties(s@, remaining as int) {
                Ok(rest) => Ok(named_views(properties@) + rest),
                Err(e) => Err(e),
            }),
        decreases s@.len() - remaining,
    {
        let ghost before = named_views(properties@);
        match property_at(input, &s, remaining) {
            Ok((name, f, q)) => {
                if q <= remaining || q > s.len() {
                    assert(g_properties(s@, remaining as int) == Ok::<Seq<(Seq<char>, Formula)>, ParseFail>(seq![]));
                    assert(before + seq![] =~= before);
                    return Ok(properties);
                }
                properties.push((name, f));
                proof {
                    assert(named_views(properties@) =~= before.push((name@, f@)));
                    match g_properties(s@, q as int) {
                        Ok(rest) => {
                            assert(before + (seq![(name@, f@)] + rest) =~= named_views(properties@) + rest);
                        },
                        Err(e) => {},
                    }
                }
                remaining = q;
            },
            Err(ParseFail::NumberTooLarge) => {
                return Err(ParseFail::NumberTooLarge);
            },
            Err(ParseFail::Mismatch) => {
                assert(before + seq![] =~= before);
                return Ok(properties);
            },
        }
    }
    Ok(properties)
}

/// A comparison reads its operator as written. After a left operand `l` that ends at `p1`,
/// the operators `<=`, `>=`, `>` and `<`, each followed by a right operand `r`, give
/// `LessEqual(l, r)`, `GreaterEqual(l, r)`, `Greater(l, r)` and `Less(l, r)`, the operands
/// in the order written; with no `<` or `>` there, the left operand stands alone.
pub proof fn lemma_comparison_operators(s: Seq<char>, p: int, l: Formula, p1: int, r: Formula, q2: int)
    requires
        0 <= p <= p1 <= s.len(),
        g_e_not(s, p) == Parsed::Ok((l, p1)),
    ensures
        ({
            let o = skip_ws(s, p1);
            &&& has_tag(s, o, "<="@) && g_e_not(s, skip_ws(s, o + 2)) == Parsed::Ok((r, q2)) ==> g_e_compare(s, p)
                == Parsed::Ok((Formula::LessEqual(Box::new(l), Box::new(r)), q2))
            &&& has_tag(s, o, ">="@) && g_e_not(s, skip_ws(s, o + 2)) == Parsed::Ok((r, q2)) ==> g_e_compare(s, p)
                == Parsed::Ok((Formula::GreaterEqual(Box::new(l), Box::new(r)), q2))
            &&& has_tag(s, o, ">"@) && !has_tag(s, o, ">="@) && g_e_not(s, skip_ws(s, o + 1)) == Parsed::Ok((r, q2))
                ==> g_e_compare(s, p) == Parsed::Ok((Formula::Greater(Box::new(l), Box::new(r)), q2))
            &&& has_tag(s, o, "<"@) && !has_tag(s, o, "<="@) && g_e_not(s, skip_ws(s, o + 1)) == Parsed::Ok((r, q2))
                ==> g_e_compare(s, p) == Parsed::Ok((Formula::Less(Box::new(l), Box::new(r)), q2))
            &&& !has_tag(s, o, "<"@) && !has_tag(s, o, ">"@) ==> g_e_compare(s, p) == Parsed::Ok((l, p1))
        }),
{
    reveal_strlit("<=");
    reveal_strlit(">=");
    reveal_strlit(">");
    reveal_strlit("<");
    let o = skip_ws(s, p1);
    lemma_skip_ws_range(s, p1);
    assert(forward(g_e_not(s, p), p, s.len() as int) == Parsed::Ok((l, p1)));
    if has_tag(s, o, "<="@) {
        assert(s[o] == s.subrange(o, o + 2)[0]);
        assert(s[o] == '<');
        assert(s.subrange(o, o + 1) =~= "<"@);
        lemma_skip_ws_range(s, o + 2);
    }
    if has_tag(s, o, ">="@) {
        assert(s[o] == s.subrange(o, o + 2)[0]);
        assert(s[o] == '>');
        assert(s.subrange(o, o + 1) =~= ">"@);
        assert(!has_tag(s, o, "<="@)) by {
            if has_tag(s, o, "<="@) {
                assert(s.subrange(o, o + 2)[0] == '<');
            }
        }
        lemma_skip_ws_range(s, o + 2);
    }
    if has_tag(s, o, ">"@) {
        assert(s[o] == s.subrange(o, o + 1)[0]);
        assert(s[o] == '>');
        assert(!has_tag(s, o, "<="@)) by {
            if has_tag(s, o, "<="@) {
                assert(s.subrange(o, o + 2)[0] == '<');
            }
        }
        lemma_skip_ws_range(s, o + 1);
    }
    if has_tag(s, o, "<"@) {
        assert(s[o] == s.subrange(o, o + 1)[0]);
        assert(s[o] == '<');
        assert(!has_tag(s, o, ">="@)) by {
            if has_tag(s, o, ">="@) {
                assert(s.subrange(o, o + 2)[0] == '>');
            }
        }
        assert(!has_tag(s, o, ">"@)) by {
            if has_tag(s, o, ">"@) {
                assert(s.subrange(o, o + 1)[0] == '>');
            }
        }
        lemma_skip_ws_range(s, o + 1);
    }
    if !has_tag(s, o, "<"@) && !has_tag(s, o, ">"@) {
        assert(!has_tag(s, o, "<="@)) by {
            if has_tag(s, o, "<="@) {
                assert(s.subrange(o, o + 2)[0] == '<');
                assert(s.subrange(o, o + 1) =~= "<"@);
            }
        }
        assert(!has_tag(s, o, ">="@)) by {
            if has_tag(s, o, ">="@) {
                assert(s.subrange(o, o + 2)[0] == '>');
                assert(s.subrange(o, o + 1) =~= ">"@);
            }
        }
    }
}

/// The binary temporal operators read as written, each at its own level and joined to the
/// right: after a left operand `l` read at the level below, `U`, `R`, `W`, `M` and `->`
/// followed by a right operand `r` of the same level give `Until(l, r)`, `Release(l, r)`,
/// `WeakUntil(l, r)`, `MightyRelease(l, r)` and `Implies(l, r)`.
pub proof fn lemma_binary_operators(s: Seq<char>, p: int, lv: int, l: Formula, p1: int, r: Formula, q2: int)
    requires
        0 <= p <= p1 <= s.len(),
        0 <= lv <= 4,
        (if lv == 0 { g_l_or(s, p) } else { g_l_binary(s, p, lv - 1) }) == Parsed::Ok((l, p1)),
    ensures
        ({
            let o = skip_ws(s, p1);
            &&& lv == 0 && has_tag(s, o, "U"@) && g_l_binary(s, skip_ws(s, o + 1), 0) == Parsed::Ok((r, q2))
                ==> g_l_binary(s, p, 0) == Parsed::Ok((Formula::Until(Box::new(l), Box::new(r)), q2))
            &&& lv == 1 && has_tag(s, o, "R"@) && g_l_binary(s, skip_ws(s, o + 1), 1) == Parsed::Ok((r, q2))
                ==> g_l_binary(s, p, 1) == Parsed::Ok((Formula::Release(Box::new(l), Box::new(r)), q2))
            &&& lv == 2 && has_tag(s, o, "W"@) && g_l_binary(s, skip_ws(s, o + 1), 2) == Parsed::Ok((r, q2))
                ==> g_l_binary(s, p, 2) == Parsed::Ok((Formula::WeakUntil(Box::new(l), Box::new(r)), q2))
            &&& lv == 3 && has_tag(s, o, "M"@) && g_l_binary(s, skip_ws(s, o + 1), 3) == Parsed::Ok((r, q2))
                ==> g_l_binary(s, p, 3) == Parsed::Ok((Formula::MightyRelease(Box::new(l), Box::new(r)), q2))
            &&& lv == 4 && has_tag(s, o, "->"@) && g_l_binary(s, skip_ws(s, o + 2), 4) == Parsed::Ok((r, q2))
                ==> g_l_binary(s, p, 4) == Parsed::Ok((Formula::Implies(Box::new(l), Box::new(r)), q2))
        }),
{
    let o = skip_ws(s, p1);
    lemma_skip_ws_range(s, p1);
    reveal_strlit("U");
    reveal_strlit("R");
    reveal_strlit("W");
    reveal_strlit("M");
    reveal_strlit("->");
    let below = if lv <= 0 || lv > 4 { g_l_or(s, p) } else { g_l_binary(s, p, lv - 1) };
    assert(forward(below, p, s.len() as int) == Parsed::Ok((l, p1)));
    if has_tag(s, o, binary_op(lv)) {
        lemma_skip_ws_range(s, o + binary_op(lv).len());
    }
}

/// The unary operators read as written: `!`, `A`, `E`, `X`, `F` or `G` before a formula `f`
/// gives `Not(f)`, `AllPaths(f)`, `SomePath(f)`, `Next(f)`, `Eventually(f)` or `Globally(f)`.
pub proof fn lemma_unary_operators(s: Seq<char>, p: int, f: Formula, q2: int)
    requires
        0 <= p <= s.len(),
    ensures
        ({
            let o = skip_ws(s, p);
            let after = g_l_unary_from(s, skip_ws(s, o + 1), 0);
            &&& has_tag(s, o, "!"@) && after == Parsed::Ok((f, q2)) ==> g_l_unary_from(s, p, 0) == Parsed::Ok(
                (Formula::Not(Box::new(f)), q2),
            )
            &&& has_tag(s, o, "A"@) && after == Parsed::Ok((f, q2)) ==> g_l_unary_from(s, p, 0) == Parsed::Ok(
                (Formula::AllPaths(Box::new(f)), q2),
            )
            &&& has_tag(s, o, "E"@) && after == Parsed::Ok((f, q2)) ==> g_l_unary_from(s, p, 0) == Parsed::Ok(
                (Formula::SomePath(Box::new(f)), q2),
            )
            &&& has_tag(s, o, "X"@) && after == Parsed::Ok((f, q2)) ==> g_l_unary_from(s, p, 0) == Parsed::Ok(
                (Formula::Next(Box::new(f)), q2),
            )
            &&& has_tag(s, o, "F"@) && after == Parsed::Ok((f, q2)) ==> g_l_unary_from(s, p, 0) == Parsed::Ok(
                (Formula::Eventually(Box::new(f)), q2),
            )
            &&& has_tag(s, o, "G"@) && after == Parsed::Ok((f, q2)) ==> g_l_unary_from(s, p, 0) == Parsed::Ok(
                (Formula::Globally(Box::new(f)), q2),
            )
        }),
{
    let o = skip_ws(s, p);
    lemma_skip_ws_range(s, p);
    reveal_strlit("!");
    reveal_strlit("A");
    reveal_strlit("E");
    reveal_strlit("X");
    reveal_strlit("F");
    reveal_strlit("G");
    if 0 <= o < s.len() {
        let c = s[o];
        assert forall|k: int| 0 <= k < 6 implies (#[trigger] has_tag(s, o, unary_op(k)) <==> c == unary_op(k)[0]) by {
            assert(unary_op(k).len() == 1);
            if has_tag(s, o, unary_op(k)) {
                assert(s.subrange(o, o + 1)[0] == s[o]);
            }
            if c == unary_op(k)[0] {
                assert(s.subrange(o, o + 1) =~= unary_op(k));
            }
        }
        lemma_skip_ws_range(s, o + 1);
        assert(g_l_unary_from(s, p, 4) == if c == 'F' {
            match g_l_unary_from(s, skip_ws(s, o + 1), 0) {
                Parsed::Ok((f2, q3)) => Parsed::Ok((unary_wrap(4, f2), q3)),
                Parsed::Err(ParseFail::NumberTooLarge) => Parsed::Err(ParseFail::NumberTooLarge),
                Parsed::Err(ParseFail::Mismatch) => g_l_unary_from(s, p, 5),
            }
        } else {
            g_l_unary_from(s, p, 5)
        });
        assert(g_l_unary_from(s, p, 3) == if c == 'X' {
            match g_l_unary_from(s, skip_ws(s, o + 1), 0) {
                Parsed::Ok((f2, q3)) => Parsed::Ok((unary_wrap(3, f2), q3)),
                Parsed::Err(ParseFail::NumberTooLarge) => Parsed::Err(ParseFail::NumberTooLarge),
                Parsed::Err(ParseFail::Mismatch) => g_l_unary_from(s, p, 4),
            }
        } else {
            g_l_unary_from(s, p, 4)
        });
        assert(g_l_unary_from(s, p, 2) == if c == 'E' {
            match g_l_unary_from(s, skip_ws(s, o + 1), 0) {
                Parsed::Ok((f2, q3)) => Parsed::Ok((unary_wrap(2, f2), q3)),
                Parsed::Err(ParseFail::NumberTooLarge) => Parsed::Err(ParseFail::NumberTooLarge),
                Parsed::Err(ParseFail::Mismatch) => g_l_unary_from(s, p, 3),
            }
        } else {
            g_l_unary_from(s, p, 3)
        });
        assert(g_l_unary_from(s, p, 1) == if c == 'A' {
            match g_l_unary_from(s, skip_ws(s, o + 1), 0) {
                Parsed::Ok((f2, q3)) => Parsed::Ok((unary_wrap(1, f2), q3)),
                Parsed::Err(ParseFail::NumberTooLarge) => Parsed::Err(ParseFail::NumberTooLarge),
                Parsed::Err(ParseFail::Mismatch) => g_l_unary_from(s, p, 2),
            }
        } else {
            g_l_unary_from(s, p, 2)
        });
        assert(g_l_unary_from(s, p, 0) == if c == '!' {
            match g_l_unary_from(s, skip_ws(s, o + 1), 0) {
                Parsed::Ok((f2, q3)) => Parsed::Ok((unary_wrap(0, f2), q3)),
                Parsed::Err(ParseFail::NumberTooLarge) => Parsed::Err(ParseFail::NumberTooLarge),
                Parsed::Err(ParseFail::Mismatch) => g_l_unary_from(s, p, 1),
            }
        } else {
            g_l_unary_from(s, p, 1)
        });
        assert(c == 'G' ==> g_l_unary_from(s, p, 5) == match g_l_unary_from(s, skip_ws(s, o + 1), 0) {
            Parsed::Ok((f2, q3)) => Parsed::Ok((unary_wrap(5, f2), q3)),
            Parsed::Err(ParseFail::NumberTooLarge) => Parsed::Err(ParseFail::NumberTooLarge),
            Parsed::Err(ParseFail::Mismatch) => g_l_unary_from(s, p, 6),
        });
    }
}

/// Where the operator of a conjunction or disjunction at `p` ends: after the doubled form
/// when it is there, else after the single one.
pub open spec fn op_end(s: Seq<char>, p: int, double: Seq<char>) -> int {
    let o = skip_ws(s, p);
    if has_tag(s, o, double) {
        skip_ws(s, o + 2)
    } else {
        skip_ws(s, o + 1)
    }
}

/// The boolean operators read as written: `!` before an operand gives `Not`; `&` or `&&`
/// after `e` and before an operand `r` continues with `And(e, r)`, `|` or `||` with
/// `Or(e, r)`; `->` between `l` and `r` gives `Implies(l, r)`, both in expressions and in
/// temporal formulas.
pub proof fn lemma_boolean_operators(s: Seq<char>, p: int, e: Formula, r: Formula, q2: int)
    requires
        0 <= p <= s.len(),
    ensures
        ({
            let o = skip_ws(s, p);
            let q = op_end(s, p, "&&"@);
            let qo = op_end(s, p, "||"@);
            &&& has_tag(s, o, "!"@) && g_e_not(s, skip_ws(s, o + 1)) == Parsed::Ok((r, q2)) ==> g_e_not(s, p)
                == Parsed::Ok((Formula::Not(Box::new(r)), q2))
            &&& has_tag(s, o, "&"@) && g_e_compare(s, q) == Parsed::Ok((r, q2)) && q <= q2 <= s.len()
                ==> g_e_and_more(s, e, p) == g_e_and_more(s, Formula::And(Box::new(e), Box::new(r)), q2)
            &&& has_tag(s, o, "|"@) && g_e_and(s, qo) == Parsed::Ok((r, q2)) && qo <= q2 <= s.len()
                ==> g_e_or_more(s, e, p) == g_e_or_more(s, Formula::Or(Box::new(e), Box::new(r)), q2)
            &&& has_tag(s, o, "&"@) && g_l_unary_from(s, q, 0) == Parsed::Ok((r, q2)) && q <= q2 <= s.len()
                ==> g_l_and_more(s, e, p) == g_l_and_more(s, Formula::And(Box::new(e), Box::new(r)), q2)
            &&& has_tag(s, o, "|"@) && g_l_and(s, qo) == Parsed::Ok((r, q2)) && qo <= q2 <= s.len()
                ==> g_l_or_more(s, e, p) == g_l_or_more(s, Formula::Or(Box::new(e), Box::new(r)), q2)
        }),
{
    let o = skip_ws(s, p);
    lemma_skip_ws_range(s, p);
    reveal_strlit("!");
    reveal_strlit("&");
    reveal_strlit("&&");
    reveal_strlit("|");
    reveal_strlit("||");
    if has_tag(s, o, "&"@) {
        assert(s[o] == s.subrange(o, o + 1)[0]);
        if has_tag(s, o, "&&"@) {
            lemma_skip_ws_range(s, o + 2);
        } else {
            lemma_skip_ws_range(s, o + 1);
        }
        assert(ws_op2(s, p, "&&"@, "&"@) == Some(op_end(s, p, "&&"@)));
    }
    if has_tag(s, o, "|"@) {
        assert(s[o] == s.subrange(o, o + 1)[0]);
        if has_tag(s, o, "||"@) {
            lemma_skip_ws_range(s, o + 2);
        } else {
            lemma_skip_ws_range(s, o + 1);
        }
        assert(ws_op2(s, p, "||"@, "|"@) == Some(op_end(s, p, "||"@)));
    }
    if has_tag(s, o, "!"@) {
        lemma_skip_ws_range(s, o + 1);
    }
}

/// An implication in an expression reads as written: a disjunction `l`, `->`, and an
/// implication `r` after it give `Implies(l, r)`.
pub proof fn lemma_expression_implication(s: Seq<char>, p: int, l: Formula, p1: int, r: Formula, q2: int)
    requires
        0 <= p <= p1 <= s.len(),
        g_e_or(s, p) == Parsed::Ok((l, p1)),
    ensures
        has_tag(s, skip_ws(s, p1), "->"@) && g_e_implies(s, skip_ws(s, skip_ws(s, p1) + 2)) == Parsed::Ok((r, q2))
            ==> g_e_implies(s, p) == Parsed::Ok((Formula::Implies(Box::new(l), Box::new(r)), q2)),
{
    lemma_skip_ws_range(s, p1);
    reveal_strlit("->");
    if has_tag(s, skip_ws(s, p1), "->"@) {
        lemma_skip_ws_range(s, skip_ws(s, p1) + 2);
    }
}

/// The first character of a tag that stands at `q`.
proof fn lemma_tag_first(s: Seq<char>, q: int, t: Seq<char>)
    requires
        has_tag(s, q, t),
        t.len() > 0,
    ensures
        0 <= q < s.len(),
        s[q] == t[0],
{
    assert(s.subrange(q, q + t.len())[0] == s[q]);
}

/// The atoms of an expression read as written: `#tokens("p")` gives `TokenCount(p)`, `"t"?`
/// gives `Fireable(t)`, and decimal digits give the `Number` they spell, where it fits in
/// `u32`.
pub proof fn lemma_atom_readings(s: Seq<char>, p: int)
    requires
        0 <= p <= s.len(),
    ensures
        token_count_at(s, p) is Some ==> g_e_not(s, p) == Parsed::Ok(
            (Formula::TokenCount(token_count_at(s, p)->Some_0.0), token_count_at(s, p)->Some_0.1),
        ),
        token_count_at(s, p) is None && fireable_at(s, p) is Some ==> g_e_not(s, p) == Parsed::Ok(
            (Formula::Fireable(fireable_at(s, p)->Some_0.0), fireable_at(s, p)->Some_0.1),
        ),
        ws_digits(s, p) is Some && digits_value(ws_digits(s, p)->Some_0.0) <= u32::MAX ==> g_e_not(s, p)
            == Parsed::Ok(
            (Formula::Number(digits_value(ws_digits(s, p)->Some_0.0) as u32), ws_digits(s, p)->Some_0.1),
        ),
{
    reveal_strlit("!");
    reveal_strlit("true");
    reveal_strlit("false");
    reveal_strlit("#tokens");
    let q = skip_ws(s, p);
    lemma_skip_ws_range(s, p);
    if 0 <= q < s.len() {
        let c = s[q];
        if has_tag(s, q, "!"@) {
            lemma_tag_first(s, q, "!"@);
        }
        if has_tag(s, q, "true"@) {
            lemma_tag_first(s, q, "true"@);
        }
        if has_tag(s, q, "false"@) {
            lemma_tag_first(s, q, "false"@);
        }
        if has_tag(s, q, "#tokens"@) {
            lemma_tag_first(s, q, "#tokens"@);
        }
        if token_count_at(s, p) is Some {
            assert(c == '#');
            assert(ws_tag(s, p, "!"@) is None);
            assert(g_e_not(s, p) == g_e_primary(s, p));
            assert(g_e_primary(s, p) == Parsed::Ok(
                (Formula::TokenCount(token_count_at(s, p)->Some_0.0), token_count_at(s, p)->Some_0.1),
            ));
        }
        if token_count_at(s, p) is None && fireable_at(s, p) is Some {
            assert(c == '"');
            assert(ws_tag(s, p, "!"@) is None);
            assert(g_e_not(s, p) == g_e_primary(s, p));
            assert(g_e_primary(s, p) == Parsed::Ok(
                (Formula::Fireable(fireable_at(s, p)->Some_0.0), fireable_at(s, p)->Some_0.1),
            ));
        }
        if ws_digits(s, p) is Some {
            assert(is_digit(c));
            assert(ws_tag(s, p, "!"@) is None);
            assert(ws_tag(s, p, "true"@) is None);
            assert(ws_tag(s, p, "false"@) is None);
            assert(token_count_at(s, p) is None);
            assert(fireable_at(s, p) is None);
            assert(g_e_not(s, p) == g_e_primary(s, p));
            if digits_value(ws_digits(s, p)->Some_0.0) <= u32::MAX {
                assert(g_e_primary(s, p) == Parsed::Ok(
                    (Formula::Number(digits_value(ws_digits(s, p)->Some_0.0) as u32), ws_digits(s, p)->Some_0.1),
                ));
            }
        }
    } else {
        if has_tag(s, q, "#tokens"@) {
            lemma_tag_first(s, q, "#tokens"@);
        }
    }
}

} // verus!
