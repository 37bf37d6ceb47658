use vstd::prelude::*;

verus! {

/// A linear temporal logic formula over Petri net propositions.
#[derive(Debug)]
pub enum LTL {
    True,
    False,
    Var(String),
    Not(Box<LTL>),
    And(Box<LTL>, Box<LTL>),
    Or(Box<LTL>, Box<LTL>),
    Implies(Box<LTL>, Box<LTL>),
    LessEqual(Box<LTL>, Box<LTL>),
    GreaterEqual(Box<LTL>, Box<LTL>),
    Greater(Box<LTL>, Box<LTL>),
    Less(Box<LTL>, Box<LTL>),
    TokenCount(String),
    Fireable(String),
    Number(u32),
    Next(Box<LTL>),
    Eventually(Box<LTL>),
    Globally(Box<LTL>),
    AllPaths(Box<LTL>),
    SomePath(Box<LTL>),
    Until(Box<LTL>, Box<LTL>),
    WeakUntil(Box<LTL>, Box<LTL>),
    Release(Box<LTL>, Box<LTL>),
    MightyRelease(Box<LTL>, Box<LTL>),
}

/// The mathematical value of a formula: the same tree, with names as character sequences.
pub enum Formula {
    True,
    False,
    Var(Seq<char>),
    Not(Box<Formula>),
    And(Box<Formula>, Box<Formula>),
    Or(Box<Formula>, Box<Formula>),
    Implies(Box<Formula>, Box<Formula>),
    LessEqual(Box<Formula>, Box<Formula>),
    GreaterEqual(Box<Formula>, Box<Formula>),
    Greater(Box<Formula>, Box<Formula>),
    Less(Box<Formula>, Box<Formula>),
    TokenCount(Seq<char>),
    Fireable(Seq<char>),
    Number(u32),
    Next(Box<Formula>),
    Eventually(Box<Formula>),
    Globally(Box<Formula>),
    AllPaths(Box<Formula>),
    SomePath(Box<Formula>),
    Until(Box<Formula>, Box<Formula>),
    WeakUntil(Box<Formula>, Box<Formula>),
    Release(Box<Formula>, Box<Formula>),
    MightyRelease(Box<Formula>, Box<Formula>),
}

pub open spec fn ltl_view(f: LTL) -> Formula
    decreases f,
{
    match f {
        LTL::True => Formula::True,
        LTL::False => Formula::False,
        LTL::Var(x) => Formula::Var(x@),
        LTL::TokenCount(x) => Formula::TokenCount(x@),
        LTL::Fireable(x) => Formula::Fireable(x@),
        LTL::Number(n) => Formula::Number(n),
        LTL::Not(a) => Formula::Not(Box::new(ltl_view(*a))),
        LTL::Next(a) => Formula::Next(Box::new(ltl_view(*a))),
        LTL::Eventually(a) => Formula::Eventually(Box::new(ltl_view(*a))),
        LTL::Globally(a) => Formula::Globally(Box::new(ltl_view(*a))),
        LTL::AllPaths(a) => Formula::AllPaths(Box::new(ltl_view(*a))),
        LTL::SomePath(a) => Formula::SomePath(Box::new(ltl_view(*a))),
        LTL::And(a, b) => Formula::And(Box::new(ltl_view(*a)), Box::new(ltl_view(*b))),
        LTL::Or(a, b) => Formula::Or(Box::new(ltl_view(*a)), Box::new(ltl_view(*b))),
        LTL::Implies(a, b) => Formula::Implies(Box::new(ltl_view(*a)), Box::new(ltl_view(*b))),
        LTL::LessEqual(a, b) => Formula::LessEqual(Box::new(ltl_view(*a)), Box::new(ltl_view(*b))),
        LTL::GreaterEqual(a, b) => Formula::GreaterEqual(
            Box::new(ltl_view(*a)),
            Box::new(ltl_view(*b)),
        ),
        LTL::Greater(a, b) => Formula::Greater(Box::new(ltl_view(*a)), Box::new(ltl_view(*b))),
        LTL::Less(a, b) => Formula::Less(Box::new(ltl_view(*a)), Box::new(ltl_view(*b))),
        LTL::Until(a, b) => Formula::Until(Box::new(ltl_view(*a)), Box::new(ltl_view(*b))),
        LTL::WeakUntil(a, b) => Formula::WeakUntil(Box::new(ltl_view(*a)), Box::new(ltl_view(*b))),
        LTL::Release(a, b) => Formula::Release(Box::new(ltl_view(*a)), Box::new(ltl_view(*b))),
        LTL::MightyRelease(a, b) => Formula::MightyRelease(
            Box::new(ltl_view(*a)),
            Box::new(ltl_view(*b)),
        ),
    }
}

impl View for LTL {
    type V = Formula;

    open spec fn view(&self) -> Formula {
        ltl_view(*self)
    }
}

/// Number of nodes of the syntax tree.
pub open spec fn spec_size(f: Formula) -> nat
    decreases f,
{
    match f {
        Formula::Not(a) | Formula::Next(a) | Formula::Eventually(a) | Formula::Globally(a)
        | Formula::AllPaths(a) | Formula::SomePath(a) => 1 + spec_size(*a),
        Formula::And(a, b) | Formula::Or(a, b) | Formula::Implies(a, b) | Formula::LessEqual(a, b)
        | Formula::GreaterEqual(a, b) | Formula::Greater(a, b) | Formula::Less(a, b)
        | Formula::Until(a, b) | Formula::WeakUntil(a, b) | Formula::Release(a, b)
        | Formula::MightyRelease(a, b) => 1 + spec_size(*a) + spec_size(*b),
        _ => 1,
    }
}

/// A formula and its value have the same outermost operator.
pub proof fn lemma_view_variant(f: LTL)
    ensures
        f is True <==> f@ is True,
        f is False <==> f@ is False,
        f is Var <==> f@ is Var,
        f is Not <==> f@ is Not,
        f is And <==> f@ is And,
        f is Or <==> f@ is Or,
        f is Implies <==> f@ is Implies,
        f is LessEqual <==> f@ is LessEqual,
        f is GreaterEqual <==> f@ is GreaterEqual,
        f is Greater <==> f@ is Greater,
        f is Less <==> f@ is Less,
        f is TokenCount <==> f@ is TokenCount,
        f is Fireable <==> f@ is Fireable,
        f is Number <==> f@ is Number,
        f is Next <==> f@ is Next,
        f is Eventually <==> f@ is Eventually,
        f is Globally <==> f@ is Globally,
        f is AllPaths <==> f@ is AllPaths,
        f is SomePath <==> f@ is SomePath,
        f is Until <==> f@ is Until,
        f is WeakUntil <==> f@ is WeakUntil,
        f is Release <==> f@ is Release,
        f is MightyRelease <==> f@ is MightyRelease,
{
}

/// Structural equality of two formulas.
pub fn ltl_equal(a: &LTL, b: &LTL) -> (r: bool)
    ensures
        r == (a@ == b@),
    decreases a,
{
    proof {
        lemma_view_variant(*a);
        lemma_view_variant(*b);
    }
    match a {
        LTL::True => match b {
            LTL::True => true,
            _ => false,
        },
        LTL::False => match b {
            LTL::False => true,
            _ => false,
        },
        LTL::Var(x) => match b {
            LTL::Var(y) => *x == *y,
            _ => false,
        },
        LTL::TokenCount(x) => match b {
            LTL::TokenCount(y) => *x == *y,
            _ => false,
        },
        LTL::Fireable(x) => match b {
            LTL::Fireable(y) => *x == *y,
            _ => false,
        },
        LTL::Number(x) => match b {
            LTL::Number(y) => *x == *y,
            _ => false,
        },
        LTL::Not(x) => match b {
            LTL::Not(y) => ltl_equal(x, y),
            _ => false,
        },
        LTL::Next(x) => match b {
            LTL::Next(y) => ltl_equal(x, y),
            _ => false,
        },
        LTL::Eventually(x) => match b {
            LTL::Eventually(y) => ltl_equal(x, y),
            _ => false,
        },
        LTL::Globally(x) => match b {
            LTL::Globally(y) => ltl_equal(x, y),
            _ => false,
        },
        LTL::AllPaths(x) => match b {
            LTL::AllPaths(y) => ltl_equal(x, y),
            _ => false,
        },
        LTL::SomePath(x) => match b {
            LTL::SomePath(y) => ltl_equal(x, y),
            _ => false,
        },
        LTL::And(x1, x2) => match b {
            LTL::And(y1, y2) => ltl_equal(x1, y1) && ltl_equal(x2, y2),
            _ => false,
        },
        LTL::Or(x1, x2) => match b {
            LTL::Or(y1, y2) => ltl_equal(x1, y1) && ltl_equal(x2, y2),
            _ => false,
        },
        LTL::Implies(x1, x2) => match b {
            LTL::Implies(y1, y2) => ltl_equal(x1, y1) && ltl_equal(x2, y2),
            _ => false,
        },
        LTL::LessEqual(x1, x2) => match b {
            LTL::LessEqual(y1, y2) => ltl_equal(x1, y1) && ltl_equal(x2, y2),
            _ => false,
        },
        LTL::GreaterEqual(x1, x2) => match b {
            LTL::GreaterEqual(y1, y2) => ltl_equal(x1, y1) && ltl_equal(x2, y2),
            _ => false,
        },
        LTL::Greater(x1, x2) => match b {
            LTL::Greater(y1, y2) => ltl_equal(x1, y1) && ltl_equal(x2, y2),
            _ => false,
        },
        LTL::Less(x1, x2) => match b {
            LTL::Less(y1, y2) => ltl_equal(x1, y1) && ltl_equal(x2, y2),
            _ => false,
        },
        LTL::Until(x1, x2) => match b {
            LTL::Until(y1, y2) => ltl_equal(x1, y1) && ltl_equal(x2, y2),
            _ => false,
        },
        LTL::WeakUntil(x1, x2) => match b {
            LTL::WeakUntil(y1, y2) => ltl_equal(x1, y1) && ltl_equal(x2, y2),
            _ => false,
        },
        LTL::Release(x1, x2) => match b {
            LTL::Release(y1, y2) => ltl_equal(x1, y1) && ltl_equal(x2, y2),
            _ => false,
        },
        LTL::MightyRelease(x1, x2) => match b {
            LTL::MightyRelease(y1, y2) => ltl_equal(x1, y1) && ltl_equal(x2, y2),
            _ => false,
        },
    }
}

impl PartialEq for LTL {
    fn eq(&self, other: &LTL) -> (r: bool) {
        ltl_equal(self, other)
    }
}

impl vstd::std_specs::cmp::PartialEqSpecImpl for LTL {
    open spec fn obeys_eq_spec() -> bool {
        true
    }

    open spec fn eq_spec(&self, other: &LTL) -> bool {
        self@ == other@
    }
}

impl Eq for LTL {}

/// A copy of a formula, equal to it.
pub fn ltl_copy(f: &LTL) -> (r: LTL)
    ensures
        r@ == f@,
    decreases f,
{
    match f {
        LTL::True => LTL::True,
        LTL::False => LTL::False,
        LTL::Var(x) => LTL::Var(x.clone()),
        LTL::TokenCount(x) => LTL::TokenCount(x.clone()),
        LTL::Fireable(x) => LTL::Fireable(x.clone()),
        LTL::Number(x) => LTL::Number(*x),
        LTL::Not(x) => LTL::Not(Box::new(ltl_copy(x))),
        LTL::Next(x) => LTL::Next(Box::new(ltl_copy(x))),
        LTL::Eventually(x) => LTL::Eventually(Box::new(ltl_copy(x))),
        LTL::Globally(x) => LTL::Globally(Box::new(ltl_copy(x))),
        LTL::AllPaths(x) => LTL::AllPaths(Box::new(ltl_copy(x))),
        LTL::SomePath(x) => LTL::SomePath(Box::new(ltl_copy(x))),
        LTL::And(x, y) => LTL::And(Box::new(ltl_copy(x)), Box::new(ltl_copy(y))),
        LTL::Or(x, y) => LTL::Or(Box::new(ltl_copy(x)), Box::new(ltl_copy(y))),
        LTL::Implies(x, y) => LTL::Implies(Box::new(ltl_copy(x)), Box::new(ltl_copy(y))),
        LTL::LessEqual(x, y) => LTL::LessEqual(Box::new(ltl_copy(x)), Box::new(ltl_copy(y))),
        LTL::GreaterEqual(x, y) => LTL::GreaterEqual(Box::new(ltl_copy(x)), Box::new(ltl_copy(y))),
        LTL::Greater(x, y) => LTL::Greater(Box::new(ltl_copy(x)), Box::new(ltl_copy(y))),
        LTL::Less(x, y) => LTL::Less(Box::new(ltl_copy(x)), Box::new(ltl_copy(y))),
        LTL::Until(x, y) => LTL::Until(Box::new(ltl_copy(x)), Box::new(ltl_copy(y))),
        LTL::WeakUntil(x, y) => LTL::WeakUntil(Box::new(ltl_copy(x)), Box::new(ltl_copy(y))),
        LTL::Release(x, y) => LTL::Release(Box::new(ltl_copy(x)), Box::new(ltl_copy(y))),
        LTL::MightyRelease(x, y) => LTL::MightyRelease(
            Box::new(ltl_copy(x)),
            Box::new(ltl_copy(y)),
        ),
    }
}

impl Clone for LTL {
    fn clone(&self) -> (r: LTL)
        ensures
            r@ == self@,
    {
        ltl_copy(self)
    }
}

impl LTL {
    /// Number of nodes of the syntax tree.
    pub fn size(&self) -> (r: usize)
        requires
            spec_size(self@) <= usize::MAX,
        ensures
            r == spec_size(self@),
        decreases self,
    {
        match self {
            LTL::Not(a) | LTL::Next(a) | LTL::Eventually(a) | LTL::Globally(a) | LTL::AllPaths(a)
            | LTL::SomePath(a) => 1 + a.size(),
            LTL::And(a, b) | LTL::Or(a, b) | LTL::Implies(a, b) | LTL::LessEqual(a, b)
            | LTL::GreaterEqual(a, b) | LTL::Greater(a, b) | LTL::Less(a, b) | LTL::Until(a, b)
            | LTL::WeakUntil(a, b) | LTL::Release(a, b) | LTL::MightyRelease(a, b) => 1 + a.size()
                + b.size(),
            _ => 1,
        }
    }

    /// Number of nodes of the syntax tree, where it fits in `usize`.
    pub fn checked_size(&self) -> (r: Option<usize>)
        ensures
            r matches Some(n) ==> n == spec_size(self@),
            r is None ==> spec_size(self@) > usize::MAX,
        decreases self,
    {
        match self {
            LTL::Not(a) | LTL::Next(a) | LTL::Eventually(a) | LTL::Globally(a) | LTL::AllPaths(a)
            | LTL::SomePath(a) => match a.checked_size() {
                Some(n) => n.checked_add(1),
                None => None,
            },
            LTL::And(a, b) | LTL::Or(a, b) | LTL::Implies(a, b) | LTL::LessEqual(a, b)
            | LTL::GreaterEqual(a, b) | LTL::Greater(a, b) | LTL::Less(a, b) | LTL::Until(a, b)
            | LTL::WeakUntil(a, b) | LTL::Release(a, b) | LTL::MightyRelease(a, b) => {
                match (a.checked_size(), b.checked_size()) {
                    (Some(x), Some(y)) => match x.checked_add(y) {
                        Some(z) => z.checked_add(1),
                        None => None,
                    },
                    _ => None,
                }
            },
            _ => Some(1),
        }
    }

    /// The negation `!self`.
    pub fn negate(&self) -> (r: LTL)
        ensures
            r@ == Formula::Not(Box::new(self@)),
    {
        LTL::Not(Box::new(self.clone()))
    }
}

} // verus!
