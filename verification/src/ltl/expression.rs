use vstd::prelude::*;
use vstd::string::*;

verus! {

/// An atomic proposition, identified by its name.
pub struct Literal(pub String);

impl View for Literal {
    type V = Seq<char>;

    open spec fn view(&self) -> Seq<char> {
        self.0@
    }
}

impl Clone for Literal {
    fn clone(&self) -> (r: Self)
        ensures
            r@ == self@,
    {
        Literal(self.0.clone())
    }
}

impl Literal {
    /// Builds a literal from its name.
    pub fn new(name: &str) -> (r: Literal)
        ensures
            r@ == name@,
    {
        Literal(name.to_string())
    }
}

/// The abstract value of an LTL formula: names are character sequences.
pub enum LtlV {
    True,
    False,
    Lit(Seq<char>),
    Not(Box<LtlV>),
    And(Box<LtlV>, Box<LtlV>),
    Or(Box<LtlV>, Box<LtlV>),
    G(Box<LtlV>),
    F(Box<LtlV>),
    X(Box<LtlV>),
    U(Box<LtlV>, Box<LtlV>),
    R(Box<LtlV>, Box<LtlV>),
    V(Box<LtlV>, Box<LtlV>),
}

/// The abstract value of a formula in negation normal form.
pub enum NnfV {
    Lit { negated: bool, name: Seq<char> },
    Bool(bool),
    U(Box<NnfV>, Box<NnfV>),
    V(Box<NnfV>, Box<NnfV>),
    Or(Box<NnfV>, Box<NnfV>),
    And(Box<NnfV>, Box<NnfV>),
    X(Box<NnfV>),
}

/// The inductive set of LTL formulas over atomic propositions.
pub enum LTLExpression {
    True,
    False,
    Literal(Literal),
    Not(Box<LTLExpression>),
    And(Box<LTLExpression>, Box<LTLExpression>),
    Or(Box<LTLExpression>, Box<LTLExpression>),
    G(Box<LTLExpression>),
    F(Box<LTLExpression>),
    X(Box<LTLExpression>),
    U(Box<LTLExpression>, Box<LTLExpression>),
    R(Box<LTLExpression>, Box<LTLExpression>),
    V(Box<LTLExpression>, Box<LTLExpression>),
}

/// The error kinds of the formula language.
pub enum LTLExpressionError {
    True,
    False,
    InvalidVariable,
    InvalidOperation,
}

/// A formula in negation normal form: negation only on literals, and the
/// temporal operators until (`U`), release (`V`) and next (`X`).
pub enum NnfLtl {
    Literal { negated: bool, name: Literal },
    Bool(bool),
    U(Box<NnfLtl>, Box<NnfLtl>),
    V(Box<NnfLtl>, Box<NnfLtl>),
    Or(Box<NnfLtl>, Box<NnfLtl>),
    And(Box<NnfLtl>, Box<NnfLtl>),
    X(Box<NnfLtl>),
}

pub open spec fn ltl_size(e: LtlV) -> nat
    decreases e,
{
    match e {
        LtlV::True | LtlV::False | LtlV::Lit(_) => 1,
        LtlV::Not(a) | LtlV::G(a) | LtlV::F(a) | LtlV::X(a) => 1 + ltl_size(*a),
        LtlV::And(a, b) | LtlV::Or(a, b) | LtlV::U(a, b) | LtlV::R(a, b) | LtlV::V(a, b) => 1
            + ltl_size(*a) + ltl_size(*b),
    }
}

pub open spec fn nnf_size(f: NnfV) -> nat
    decreases f,
{
    match f {
        NnfV::Lit { .. } | NnfV::Bool(_) => 1,
        NnfV::X(a) => 1 + nnf_size(*a),
        NnfV::U(a, b) | NnfV::V(a, b) | NnfV::Or(a, b) | NnfV::And(a, b) => 1 + nnf_size(*a)
            + nnf_size(*b),
    }
}

impl View for LTLExpression {
    type V = LtlV;

    open spec fn view(&self) -> LtlV
        decreases self,
    {
        match self {
            LTLExpression::True => LtlV::True,
            LTLExpression::False => LtlV::False,
            LTLExpression::Literal(l) => LtlV::Lit(l@),
            LTLExpression::Not(a) => LtlV::Not(Box::new((**a).view())),
            LTLExpression::And(a, b) => LtlV::And(Box::new((**a).view()), Box::new((**b).view())),
            LTLExpression::Or(a, b) => LtlV::Or(Box::new((**a).view()), Box::new((**b).view())),
            LTLExpression::G(a) => LtlV::G(Box::new((**a).view())),
            LTLExpression::F(a) => LtlV::F(Box::new((**a).view())),
            LTLExpression::X(a) => LtlV::X(Box::new((**a).view())),
            LTLExpression::U(a, b) => LtlV::U(Box::new((**a).view()), Box::new((**b).view())),
            LTLExpression::R(a, b) => LtlV::R(Box::new((**a).view()), Box::new((**b).view())),
            LTLExpression::V(a, b) => LtlV::V(Box::new((**a).view()), Box::new((**b).view())),
        }
    }
}

impl View for NnfLtl {
    type V = NnfV;

    open spec fn view(&self) -> NnfV
        decreases self,
    {
        match self {
            NnfLtl::Literal { negated, name } => NnfV::Lit { negated: *negated, name: name@ },
            NnfLtl::Bool(b) => NnfV::Bool(*b),
            NnfLtl::U(a, b) => NnfV::U(Box::new((**a).view()), Box::new((**b).view())),
            NnfLtl::V(a, b) => NnfV::V(Box::new((**a).view()), Box::new((**b).view())),
            NnfLtl::Or(a, b) => NnfV::Or(Box::new((**a).view()), Box::new((**b).view())),
            NnfLtl::And(a, b) => NnfV::And(Box::new((**a).view()), Box::new((**b).view())),
            NnfLtl::X(a) => NnfV::X(Box::new((**a).view())),
        }
    }
}


/// Negation normal form of a formula, by pushing negations inward.
pub open spec fn nnf_of(e: LtlV) -> NnfV
    decreases ltl_size(e),
{
    proof {
        reveal_with_fuel(ltl_size, 3);
    }
    match e {
        LtlV::True => NnfV::Bool(true),
        LtlV::False => NnfV::Bool(false),
        LtlV::Lit(l) => NnfV::Lit { negated: false, name: l },
        LtlV::Not(inner) => match *inner {
            LtlV::True => NnfV::Bool(false),
            LtlV::False => NnfV::Bool(true),
            LtlV::Lit(l) => NnfV::Lit { negated: true, name: l },
            LtlV::And(p, q) => NnfV::Or(
                Box::new(nnf_of(LtlV::Not(p))),
                Box::new(nnf_of(LtlV::Not(q))),
            ),
            LtlV::Or(p, q) => NnfV::And(
                Box::new(nnf_of(LtlV::Not(p))),
                Box::new(nnf_of(LtlV::Not(q))),
            ),
            LtlV::G(p) => NnfV::U(Box::new(NnfV::Bool(true)), Box::new(nnf_of(LtlV::Not(p)))),
            LtlV::F(p) => NnfV::V(Box::new(NnfV::Bool(false)), Box::new(nnf_of(LtlV::Not(p)))),
            LtlV::X(p) => NnfV::X(Box::new(nnf_of(LtlV::Not(p)))),
            LtlV::U(p, q) => NnfV::V(
                Box::new(nnf_of(LtlV::Not(p))),
                Box::new(nnf_of(LtlV::Not(q))),
            ),
            LtlV::R(p, q) => NnfV::U(
                Box::new(nnf_of(LtlV::Not(p))),
                Box::new(nnf_of(LtlV::Not(q))),
            ),
            LtlV::V(p, q) => NnfV::U(
                Box::new(nnf_of(LtlV::Not(p))),
                Box::new(nnf_of(LtlV::Not(q))),
            ),
            LtlV::Not(p) => nnf_of(*p),
        },
        LtlV::And(p, q) => NnfV::And(Box::new(nnf_of(*p)), Box::new(nnf_of(*q))),
        LtlV::Or(p, q) => NnfV::Or(Box::new(nnf_of(*p)), Box::new(nnf_of(*q))),
        LtlV::G(p) => NnfV::V(Box::new(NnfV::Bool(false)), Box::new(nnf_of(*p))),
        LtlV::F(p) => NnfV::U(Box::new(NnfV::Bool(true)), Box::new(nnf_of(*p))),
        LtlV::X(p) => NnfV::X(Box::new(nnf_of(*p))),
        LtlV::U(p, q) => NnfV::U(Box::new(nnf_of(*p)), Box::new(nnf_of(*q))),
        LtlV::R(p, q) => NnfV::V(Box::new(nnf_of(*p)), Box::new(nnf_of(*q))),
        LtlV::V(p, q) => NnfV::V(Box::new(nnf_of(*p)), Box::new(nnf_of(*q))),
    }
}

/// The negation of a formula in negation normal form, pushed down to its
/// literals: conjunction and disjunction swap, until and release swap,
/// truth values and literals are negated, and next stays.
pub open spec fn nnf_dual(f: NnfV) -> NnfV
    decreases f,
{
    match f {
        NnfV::Lit { negated, name } => NnfV::Lit { negated: !negated, name },
        NnfV::Bool(b) => NnfV::Bool(!b),
        NnfV::U(a, b) => NnfV::V(Box::new(nnf_dual(*a)), Box::new(nnf_dual(*b))),
        NnfV::V(a, b) => NnfV::U(Box::new(nnf_dual(*a)), Box::new(nnf_dual(*b))),
        NnfV::Or(a, b) => NnfV::And(Box::new(nnf_dual(*a)), Box::new(nnf_dual(*b))),
        NnfV::And(a, b) => NnfV::Or(Box::new(nnf_dual(*a)), Box::new(nnf_dual(*b))),
        NnfV::X(a) => NnfV::X(Box::new(nnf_dual(*a))),
    }
}

/// Negating twice gives the formula back.
pub proof fn lemma_nnf_dual_involution(f: NnfV)
    ensures
        nnf_dual(nnf_dual(f)) == f,
    decreases f,
{
    match f {
        NnfV::U(a, b) | NnfV::V(a, b) | NnfV::Or(a, b) | NnfV::And(a, b) => {
            lemma_nnf_dual_involution(*a);
            lemma_nnf_dual_involution(*b);
        },
        NnfV::X(a) => lemma_nnf_dual_involution(*a),
        _ => {},
    }
}

/// The negation normal form of `!e` is the negation of the negation normal
/// form of `e`, pushed down to the literals.
pub proof fn lemma_nnf_of_negation(e: LtlV)
    ensures
        nnf_of(LtlV::Not(Box::new(e))) == nnf_dual(nnf_of(e)),
    decreases ltl_size(e),
{
    reveal_with_fuel(ltl_size, 3);
    match e {
        LtlV::Not(p) => {
            lemma_nnf_of_negation(*p);
            lemma_nnf_dual_involution(nnf_of(*p));
            assert(e == LtlV::Not(Box::new(*p)));
            assert(nnf_of(e) == nnf_dual(nnf_of(*p)));
            assert(nnf_dual(nnf_of(e)) == nnf_of(*p));
            assert(nnf_of(LtlV::Not(Box::new(e))) == nnf_of(*p));
        },
        LtlV::And(p, q) => {
            lemma_nnf_of_negation(*p);
            lemma_nnf_of_negation(*q);
        },
        LtlV::Or(p, q) => {
            lemma_nnf_of_negation(*p);
            lemma_nnf_of_negation(*q);
        },
        LtlV::U(p, q) => {
            lemma_nnf_of_negation(*p);
            lemma_nnf_of_negation(*q);
        },
        LtlV::R(p, q) => {
            lemma_nnf_of_negation(*p);
            lemma_nnf_of_negation(*q);
        },
        LtlV::V(p, q) => {
            lemma_nnf_of_negation(*p);
            lemma_nnf_of_negation(*q);
        },
        LtlV::G(p) => {
            lemma_nnf_of_negation(*p);
            assert(nnf_of(e) == NnfV::V(Box::new(NnfV::Bool(false)), Box::new(nnf_of(*p))));
            assert(nnf_dual(NnfV::Bool(false)) == NnfV::Bool(true));
            assert(nnf_of(LtlV::Not(Box::new(e))) == NnfV::U(
                Box::new(NnfV::Bool(true)),
                Box::new(nnf_of(LtlV::Not(p))),
            ));
        },
        LtlV::F(p) => {
            lemma_nnf_of_negation(*p);
            assert(nnf_of(e) == NnfV::U(Box::new(NnfV::Bool(true)), Box::new(nnf_of(*p))));
            assert(nnf_dual(NnfV::Bool(true)) == NnfV::Bool(false));
            assert(nnf_of(LtlV::Not(Box::new(e))) == NnfV::V(
                Box::new(NnfV::Bool(false)),
                Box::new(nnf_of(LtlV::Not(p))),
            ));
        },
        LtlV::X(p) => {
            lemma_nnf_of_negation(*p);
        },
        _ => {},
    }
}

/// Textual form of a formula in negation normal form.
pub open spec fn nnf_text(f: NnfV) -> Seq<char>
    decreases f,
{
    match f {
        NnfV::Lit { negated, name } => if negated {
            "¬"@ + name
        } else {
            name
        },
        NnfV::Bool(b) => if b {
            "T"@
        } else {
            "⊥"@
        },
        NnfV::U(p, q) => "("@ + nnf_text(*p) + " U "@ + nnf_text(*q) + ")"@,
        NnfV::V(p, q) => "("@ + nnf_text(*p) + " V "@ + nnf_text(*q) + ")"@,
        NnfV::Or(p, q) => nnf_text(*p) + " ∨ "@ + nnf_text(*q),
        NnfV::And(p, q) => nnf_text(*p) + " ∧ "@ + nnf_text(*q),
        NnfV::X(p) => "X ("@ + nnf_text(*p) + ")"@,
    }
}

/// Textual form of a formula.
pub open spec fn ltl_text(e: LtlV) -> Seq<char>
    decreases e,
{
    match e {
        LtlV::True => "T"@,
        LtlV::False => "⊥"@,
        LtlV::Lit(l) => l,
        LtlV::Not(p) => "¬"@ + ltl_text(*p),
        LtlV::And(p, q) => ltl_text(*p) + " ∧ "@ + ltl_text(*q),
        LtlV::Or(p, q) => ltl_text(*p) + " ∨ "@ + ltl_text(*q),
        LtlV::G(p) => "G ("@ + ltl_text(*p) + ")"@,
        LtlV::F(p) => "F ("@ + ltl_text(*p) + ")"@,
        LtlV::X(p) => "X ("@ + ltl_text(*p) + ")"@,
        LtlV::U(p, q) => "("@ + ltl_text(*p) + " U "@ + ltl_text(*q) + ")"@,
        LtlV::R(p, q) => "("@ + ltl_text(*p) + " R "@ + ltl_text(*q) + ")"@,
        LtlV::V(p, q) => "("@ + ltl_text(*p) + " V "@ + ltl_text(*q) + ")"@,
    }
}

impl Clone for LTLExpression {
    fn clone(&self) -> (r: Self)
        ensures
            r@ == self@,
        decreases ltl_size(self@),
    {
        match self {
            LTLExpression::True => LTLExpression::True,
            LTLExpression::False => LTLExpression::False,
            LTLExpression::Literal(l) => LTLExpression::Literal(l.clone()),
            LTLExpression::Not(a) => LTLExpression::Not(Box::new((**a).clone())),
            LTLExpression::And(a, b) => LTLExpression::And(
                Box::new((**a).clone()),
                Box::new((**b).clone()),
            ),
            LTLExpression::Or(a, b) => LTLExpression::Or(
                Box::new((**a).clone()),
                Box::new((**b).clone()),
            ),
            LTLExpression::G(a) => LTLExpression::G(Box::new((**a).clone())),
            LTLExpression::F(a) => LTLExpression::F(Box::new((**a).clone())),
            LTLExpression::X(a) => LTLExpression::X(Box::new((**a).clone())),
            LTLExpression::U(a, b) => LTLExpression::U(
                Box::new((**a).clone()),
                Box::new((**b).clone()),
            ),
            LTLExpression::R(a, b) => LTLExpression::R(
                Box::new((**a).clone()),
                Box::new((**b).clone()),
            ),
            LTLExpression::V(a, b) => LTLExpression::V(
                Box::new((**a).clone()),
                Box::new((**b).clone()),
            ),
        }
    }
}

impl Clone for NnfLtl {
    fn clone(&self) -> (r: Self)
        ensures
            r@ == self@,
        decreases nnf_size(self@),
    {
        match self {
            NnfLtl::Literal { negated, name } => NnfLtl::Literal {
                negated: *negated,
                name: name.clone(),
            },
            NnfLtl::Bool(b) => NnfLtl::Bool(*b),
            NnfLtl::U(a, b) => NnfLtl::U(Box::new((**a).clone()), Box::new((**b).clone())),
            NnfLtl::V(a, b) => NnfLtl::V(Box::new((**a).clone()), Box::new((**b).clone())),
            NnfLtl::Or(a, b) => NnfLtl::Or(Box::new((**a).clone()), Box::new((**b).clone())),
            NnfLtl::And(a, b) => NnfLtl::And(Box::new((**a).clone()), Box::new((**b).clone())),
            NnfLtl::X(a) => NnfLtl::X(Box::new((**a).clone())),
        }
    }
}

impl LTLExpression {
    /// The literal with the given name.
    pub fn lit(name: &str) -> (r: LTLExpression)
        ensures
            r@ == LtlV::Lit(name@),
    {
        LTLExpression::Literal(Literal::new(name))
    }

    /// `self U other`.
    #[allow(non_snake_case)]
    pub fn U(self, other: LTLExpression) -> (r: LTLExpression)
        ensures
            r@ == LtlV::U(Box::new(self@), Box::new(other@)),
    {
        LTLExpression::U(Box::new(self), Box::new(other))
    }

    /// `self R other`.
    #[allow(non_snake_case)]
    pub fn R(self, other: LTLExpression) -> (r: LTLExpression)
        ensures
            r@ == LtlV::R(Box::new(self@), Box::new(other@)),
    {
        LTLExpression::R(Box::new(self), Box::new(other))
    }

    /// `self V other`.
    #[allow(non_snake_case)]
    pub fn V(self, other: LTLExpression) -> (r: LTLExpression)
        ensures
            r@ == LtlV::V(Box::new(self@), Box::new(other@)),
    {
        LTLExpression::V(Box::new(self), Box::new(other))
    }

    /// `self ∧ other`.
    pub fn and(self, other: LTLExpression) -> (r: LTLExpression)
        ensures
            r@ == LtlV::And(Box::new(self@), Box::new(other@)),
    {
        LTLExpression::And(Box::new(self), Box::new(other))
    }

    /// `self ∨ other`.
    pub fn or(self, other: LTLExpression) -> (r: LTLExpression)
        ensures
            r@ == LtlV::Or(Box::new(self@), Box::new(other@)),
    {
        LTLExpression::Or(Box::new(self), Box::new(other))
    }

    /// The negation of `self`, leaving `self` in place.
    pub fn neg(&self) -> (r: LTLExpression)
        ensures
            r@ == LtlV::Not(Box::new(self@)),
    {
        LTLExpression::Not(Box::new(self.clone()))
    }

    /// The equivalent formula in negation normal form.
    pub fn nnf(&self) -> (r: NnfLtl)
        ensures
            r@ == nnf_of(self@),
            forall|w: spec_fn(nat) -> Set<Seq<char>>, i: nat| #[trigger] nnf_holds(r@, w, i) == ltl_holds(self@, w, i),
        decreases ltl_size(self@),
    {
        proof {
            reveal_with_fuel(ltl_size, 3);
            assert forall|w: spec_fn(nat) -> Set<Seq<char>>, i: nat| #[trigger] nnf_holds(nnf_of(self@), w, i) == ltl_holds(
                self@,
                w,
                i,
            ) by {
                lemma_nnf_equivalent(self@, w);
            }
        }
        match self {
            LTLExpression::True => NnfLtl::Bool(true),
            LTLExpression::False => NnfLtl::Bool(false),
            LTLExpression::Literal(l) => NnfLtl::lit(l.clone()),
            LTLExpression::Not(e) => {
                assert(self@ == LtlV::Not(Box::new((**e)@)));
                match &**e {
                LTLExpression::True => NnfLtl::Bool(false),
                LTLExpression::False => NnfLtl::Bool(true),
                LTLExpression::Literal(l) => NnfLtl::neg_lit(l.clone()),
                LTLExpression::And(p, q) => {
                    assert((**e)@ == LtlV::And(Box::new((**p)@), Box::new((**q)@)));
                    p.neg().nnf().or(q.neg().nnf())
                },
                LTLExpression::Or(p, q) => {
                    assert((**e)@ == LtlV::Or(Box::new((**p)@), Box::new((**q)@)));
                    p.neg().nnf().and(q.neg().nnf())
                },
                LTLExpression::G(p) => {
                    assert((**e)@ == LtlV::G(Box::new((**p)@)));
                    p.neg().nnf().F()
                },
                LTLExpression::F(p) => {
                    assert((**e)@ == LtlV::F(Box::new((**p)@)));
                    p.neg().nnf().G()
                },
                LTLExpression::X(p) => {
                    assert((**e)@ == LtlV::X(Box::new((**p)@)));
                    NnfLtl::X(Box::new(p.neg().nnf()))
                },
                LTLExpression::U(p, q) => {
                    assert((**e)@ == LtlV::U(Box::new((**p)@), Box::new((**q)@)));
                    p.neg().nnf().V(q.neg().nnf())
                },
                LTLExpression::R(p, q) => {
                    assert((**e)@ == LtlV::R(Box::new((**p)@), Box::new((**q)@)));
                    p.neg().nnf().U(q.neg().nnf())
                },
                LTLExpression::V(p, q) => {
                    assert((**e)@ == LtlV::V(Box::new((**p)@), Box::new((**q)@)));
                    p.neg().nnf().U(q.neg().nnf())
                },
                LTLExpression::Not(p) => p.nnf(),
            }},
            LTLExpression::And(p, q) => p.nnf().and(q.nnf()),
            LTLExpression::Or(p, q) => p.nnf().or(q.nnf()),
            LTLExpression::G(e) => e.nnf().G(),
            LTLExpression::F(e) => e.nnf().F(),
            LTLExpression::X(e) => NnfLtl::X(Box::new(e.nnf())),
            LTLExpression::U(p, q) => p.nnf().U(q.nnf()),
            LTLExpression::R(p, q) => p.nnf().R(q.nnf()),
            LTLExpression::V(p, q) => p.nnf().V(q.nnf()),
        }
    }

    /// The formula as text: `T`, `⊥`, `¬p`, `p ∧ q`, `G (p)`, `(p U q)`, ...
    pub fn to_text(&self) -> (r: String)
        ensures
            r@ == ltl_text(self@),
        decreases ltl_size(self@),
    {
        let mut s = String::new();
        match self {
            LTLExpression::True => s.append("T"),
            LTLExpression::False => s.append("⊥"),
            LTLExpression::Literal(l) => s.append(l.0.as_str()),
            LTLExpression::Not(p) => {
                s.append("¬");
                s.append(p.to_text().as_str());
            },
            LTLExpression::And(p, q) => {
                s.append(p.to_text().as_str());
                s.append(" ∧ ");
                s.append(q.to_text().as_str());
            },
            LTLExpression::Or(p, q) => {
                s.append(p.to_text().as_str());
                s.append(" ∨ ");
                s.append(q.to_text().as_str());
            },
            LTLExpression::G(p) => {
                s.append("G (");
                s.append(p.to_text().as_str());
                s.append(")");
            },
            LTLExpression::F(p) => {
                s.append("F (");
                s.append(p.to_text().as_str());
                s.append(")");
            },
            LTLExpression::X(p) => {
                s.append("X (");
                s.append(p.to_text().as_str());
                s.append(")");
            },
            LTLExpression::U(p, q) => {
                s.append("(");
                s.append(p.to_text().as_str());
                s.append(" U ");
                s.append(q.to_text().as_str());
                s.append(")");
            },
            LTLExpression::R(p, q) => {
                s.append("(");
                s.append(p.to_text().as_str());
                s.append(" R ");
                s.append(q.to_text().as_str());
                s.append(")");
            },
            LTLExpression::V(p, q) => {
                s.append("(");
                s.append(p.to_text().as_str());
                s.append(" V ");
                s.append(q.to_text().as_str());
                s.append(")");
            },
        }
        s
    }
}

impl NnfLtl {
    /// The positive literal with the given name.
    pub fn lit(name: Literal) -> (r: NnfLtl)
        ensures
            r@ == (NnfV::Lit { negated: false, name: name@ }),
    {
        NnfLtl::Literal { negated: false, name }
    }

    /// The negated literal with the given name.
    pub fn neg_lit(name: Literal) -> (r: NnfLtl)
        ensures
            r@ == (NnfV::Lit { negated: true, name: name@ }),
    {
        NnfLtl::Literal { negated: true, name }
    }

    /// `self U other`.
    #[allow(non_snake_case)]
    pub fn U(self, other: NnfLtl) -> (r: NnfLtl)
        ensures
            r@ == NnfV::U(Box::new(self@), Box::new(other@)),
    {
        NnfLtl::U(Box::new(self), Box::new(other))
    }

    /// `self R other`, which is `self V other` in this normal form.
    #[allow(non_snake_case)]
    pub fn R(self, other: NnfLtl) -> (r: NnfLtl)
        ensures
            r@ == NnfV::V(Box::new(self@), Box::new(other@)),
    {
        NnfLtl::V(Box::new(self), Box::new(other))
    }

    /// `self V other`.
    #[allow(non_snake_case)]
    pub fn V(self, other: NnfLtl) -> (r: NnfLtl)
        ensures
            r@ == NnfV::V(Box::new(self@), Box::new(other@)),
    {
        NnfLtl::V(Box::new(self), Box::new(other))
    }

    /// Always: `⊥ V self`.
    #[allow(non_snake_case)]
    pub fn G(self) -> (r: NnfLtl)
        ensures
            r@ == NnfV::V(Box::new(NnfV::Bool(false)), Box::new(self@)),
    {
        NnfLtl::Bool(false).R(self)
    }

    /// Eventually: `T U self`.
    #[allow(non_snake_case)]
    pub fn F(self) -> (r: NnfLtl)
        ensures
            r@ == NnfV::U(Box::new(NnfV::Bool(true)), Box::new(self@)),
    {
        NnfLtl::Bool(true).U(self)
    }

    /// `self ∨ other`.
    pub fn or(self, other: NnfLtl) -> (r: NnfLtl)
        ensures
            r@ == NnfV::Or(Box::new(self@), Box::new(other@)),
    {
        NnfLtl::Or(Box::new(self), Box::new(other))
    }

    /// `self ∧ other`.
    pub fn and(self, other: NnfLtl) -> (r: NnfLtl)
        ensures
            r@ == NnfV::And(Box::new(self@), Box::new(other@)),
    {
        NnfLtl::And(Box::new(self), Box::new(other))
    }

    /// The formula as text: `p`, `¬p`, `T`, `⊥`, `(p U q)`, `(p V q)`,
    /// `p ∨ q`, `p ∧ q`, `X (p)`.
    pub fn to_text(&self) -> (r: String)
        ensures
            r@ == nnf_text(self@),
        decreases nnf_size(self@),
    {
        let mut s = String::new();
        match self {
            NnfLtl::Literal { negated, name } => {
                if *negated {
                    s.append("¬");
                }
                s.append(name.0.as_str());
            },
            NnfLtl::Bool(b) => {
                if *b {
                    s.append("T");
                } else {
                    s.append("⊥");
                }
            },
            NnfLtl::U(p, q) => {
                s.append("(");
                s.append(p.to_text().as_str());
                s.append(" U ");
                s.append(q.to_text().as_str());
                s.append(")");
            },
            NnfLtl::V(p, q) => {
                s.append("(");
                s.append(p.to_text().as_str());
                s.append(" V ");
                s.append(q.to_text().as_str());
                s.append(")");
            },
            NnfLtl::Or(p, q) => {
                s.append(p.to_text().as_str());
                s.append(" ∨ ");
                s.append(q.to_text().as_str());
            },
            NnfLtl::And(p, q) => {
                s.append(p.to_text().as_str());
                s.append(" ∧ ");
                s.append(q.to_text().as_str());
            },
            NnfLtl::X(p) => {
                s.append("X (");
                s.append(p.to_text().as_str());
                s.append(")");
            },
        }
        s
    }
}

/// Where a formula holds along the word `w` (the set of propositions true
/// at each position): `U` is until, `R` and `V` are release (the second
/// operand holds up to and including the first position where the first
/// holds, or forever).
pub open spec fn ltl_sat(e: LtlV, w: spec_fn(nat) -> Set<Seq<char>>) -> spec_fn(nat) -> bool
    decreases e,
{
    match e {
        LtlV::True => |i: nat| true,
        LtlV::False => |i: nat| false,
        LtlV::Lit(n) => |i: nat| w(i).contains(n),
        LtlV::Not(p) => {
            let a = ltl_sat(*p, w);
            |i: nat| !a(i)
        },
        LtlV::And(p, q) => {
            let a = ltl_sat(*p, w);
            let b = ltl_sat(*q, w);
            |i: nat| a(i) && b(i)
        },
        LtlV::Or(p, q) => {
            let a = ltl_sat(*p, w);
            let b = ltl_sat(*q, w);
            |i: nat| a(i) || b(i)
        },
        LtlV::G(p) => {
            let a = ltl_sat(*p, w);
            |i: nat| forall|k: nat| k >= i ==> #[trigger] a(k)
        },
        LtlV::F(p) => {
            let a = ltl_sat(*p, w);
            |i: nat| exists|k: nat| k >= i && #[trigger] a(k)
        },
        LtlV::X(p) => {
            let a = ltl_sat(*p, w);
            |i: nat| a(i + 1)
        },
        LtlV::U(p, q) => {
            let a = ltl_sat(*p, w);
            let b = ltl_sat(*q, w);
            |i: nat| exists|k: nat| k >= i && #[trigger] b(k) && forall|j: nat| i <= j < k ==> #[trigger] a(j)
        },
        LtlV::R(p, q) => {
            let a = ltl_sat(*p, w);
            let b = ltl_sat(*q, w);
            |i: nat| forall|k: nat| k >= i ==> #[trigger] b(k) || exists|j: nat| i <= j < k && #[trigger] a(j)
        },
        LtlV::V(p, q) => {
            let a = ltl_sat(*p, w);
            let b = ltl_sat(*q, w);
            |i: nat| forall|k: nat| k >= i ==> #[trigger] b(k) || exists|j: nat| i <= j < k && #[trigger] a(j)
        },
    }
}

/// Whether a formula holds at position `i` of the word `w`.
pub open spec fn ltl_holds(e: LtlV, w: spec_fn(nat) -> Set<Seq<char>>, i: nat) -> bool {
    ltl_sat(e, w)(i)
}

/// Where a formula in negation normal form holds along the word `w`.
pub open spec fn nnf_sat(f: NnfV, w: spec_fn(nat) -> Set<Seq<char>>) -> spec_fn(nat) -> bool
    decreases f,
{
    match f {
        NnfV::Lit { negated, name } => |i: nat| w(i).contains(name) != negated,
        NnfV::Bool(v) => |i: nat| v,
        NnfV::And(p, q) => {
            let a = nnf_sat(*p, w);
            let b = nnf_sat(*q, w);
            |i: nat| a(i) && b(i)
        },
        NnfV::Or(p, q) => {
            let a = nnf_sat(*p, w);
            let b = nnf_sat(*q, w);
            |i: nat| a(i) || b(i)
        },
        NnfV::X(p) => {
            let a = nnf_sat(*p, w);
            |i: nat| a(i + 1)
        },
        NnfV::U(p, q) => {
            let a = nnf_sat(*p, w);
            let b = nnf_sat(*q, w);
            |i: nat| exists|k: nat| k >= i && #[trigger] b(k) && forall|j: nat| i <= j < k ==> #[trigger] a(j)
        },
        NnfV::V(p, q) => {
            let a = nnf_sat(*p, w);
            let b = nnf_sat(*q, w);
            |i: nat| forall|k: nat| k >= i ==> #[trigger] b(k) || exists|j: nat| i <= j < k && #[trigger] a(j)
        },
    }
}

/// Whether a formula in negation normal form holds at position `i` of `w`.
pub open spec fn nnf_holds(f: NnfV, w: spec_fn(nat) -> Set<Seq<char>>, i: nat) -> bool {
    nnf_sat(f, w)(i)
}

/// One step of `ltl_holds`: the truth of a formula from that of its parts.
pub open spec fn ltl_step(e: LtlV, w: spec_fn(nat) -> Set<Seq<char>>, i: nat) -> bool {
    match e {
        LtlV::True => true,
        LtlV::False => false,
        LtlV::Lit(n) => w(i).contains(n),
        LtlV::Not(p) => !ltl_holds(*p, w, i),
        LtlV::And(p, q) => ltl_holds(*p, w, i) && ltl_holds(*q, w, i),
        LtlV::Or(p, q) => ltl_holds(*p, w, i) || ltl_holds(*q, w, i),
        LtlV::G(p) => forall|k: nat| k >= i ==> #[trigger] ltl_holds(*p, w, k),
        LtlV::F(p) => exists|k: nat| k >= i && #[trigger] ltl_holds(*p, w, k),
        LtlV::X(p) => ltl_holds(*p, w, i + 1),
        LtlV::U(p, q) => exists|k: nat|
            k >= i && #[trigger] ltl_holds(*q, w, k) && forall|j: nat| i <= j < k ==> #[trigger] ltl_holds(*p, w, j),
        LtlV::R(p, q) => forall|k: nat|
            k >= i ==> #[trigger] ltl_holds(*q, w, k) || exists|j: nat| i <= j < k && #[trigger] ltl_holds(*p, w, j),
        LtlV::V(p, q) => forall|k: nat|
            k >= i ==> #[trigger] ltl_holds(*q, w, k) || exists|j: nat| i <= j < k && #[trigger] ltl_holds(*p, w, j),
    }
}

/// One step of `nnf_holds`.
pub open spec fn nnf_step(f: NnfV, w: spec_fn(nat) -> Set<Seq<char>>, i: nat) -> bool {
    match f {
        NnfV::Lit { negated, name } => w(i).contains(name) != negated,
        NnfV::Bool(v) => v,
        NnfV::And(p, q) => nnf_holds(*p, w, i) && nnf_holds(*q, w, i),
        NnfV::Or(p, q) => nnf_holds(*p, w, i) || nnf_holds(*q, w, i),
        NnfV::X(p) => nnf_holds(*p, w, i + 1),
        NnfV::U(p, q) => exists|k: nat|
            k >= i && #[trigger] nnf_holds(*q, w, k) && forall|j: nat| i <= j < k ==> #[trigger] nnf_holds(*p, w, j),
        NnfV::V(p, q) => forall|k: nat|
            k >= i ==> #[trigger] nnf_holds(*q, w, k) || exists|j: nat| i <= j < k && #[trigger] nnf_holds(*p, w, j),
    }
}

proof fn lemma_ltl_step(e: LtlV, w: spec_fn(nat) -> Set<Seq<char>>)
    ensures
        forall|i: nat| #[trigger] ltl_holds(e, w, i) == ltl_step(e, w, i),
{
    match e {
        LtlV::True | LtlV::False | LtlV::Lit(_) => {},
        LtlV::Not(p) | LtlV::X(p) => {
            let a = ltl_sat(*p, w);
            assert(forall|k: nat| #[trigger] a(k) == ltl_holds(*p, w, k));
        },
        LtlV::G(p) | LtlV::F(p) => {
            let a = ltl_sat(*p, w);
            assert(forall|k: nat| #[trigger] a(k) == ltl_holds(*p, w, k));
            assert forall|i: nat| #[trigger] ltl_holds(e, w, i) == ltl_step(e, w, i) by {
                assert(ltl_sat(e, w)(i) == ltl_holds(e, w, i));
            }
        },
        LtlV::And(p, q) => {
            let a = ltl_sat(*p, w);
            let b = ltl_sat(*q, w);
            assert(forall|k: nat| #[trigger] a(k) == ltl_holds(*p, w, k));
            assert(forall|k: nat| #[trigger] b(k) == ltl_holds(*q, w, k));
            assert forall|i: nat| #[trigger] ltl_holds(e, w, i) == ltl_step(e, w, i) by {
                assert(ltl_sat(e, w)(i) == ltl_holds(e, w, i));
            }
        },
        LtlV::Or(p, q) => {
            let a = ltl_sat(*p, w);
            let b = ltl_sat(*q, w);
            assert(forall|k: nat| #[trigger] a(k) == ltl_holds(*p, w, k));
            assert(forall|k: nat| #[trigger] b(k) == ltl_holds(*q, w, k));
            assert forall|i: nat| #[trigger] ltl_holds(e, w, i) == ltl_step(e, w, i) by {
                assert(ltl_sat(e, w)(i) == ltl_holds(e, w, i));
            }
        },
        LtlV::U(p, q) => {
            let a = ltl_sat(*p, w);
            let b = ltl_sat(*q, w);
            assert(forall|k: nat| #[trigger] a(k) == ltl_holds(*p, w, k));
            assert(forall|k: nat| #[trigger] b(k) == ltl_holds(*q, w, k));
            assert forall|i: nat| #[trigger] ltl_holds(e, w, i) == ltl_step(e, w, i) by {
                assert(ltl_sat(e, w)(i) == ltl_holds(e, w, i));
            }
        },
        LtlV::R(p, q) => {
            let a = ltl_sat(*p, w);
            let b = ltl_sat(*q, w);
            assert(forall|k: nat| #[trigger] a(k) == ltl_holds(*p, w, k));
            assert(forall|k: nat| #[trigger] b(k) == ltl_holds(*q, w, k));
            assert forall|i: nat| #[trigger] ltl_holds(e, w, i) == ltl_step(e, w, i) by {
                assert(ltl_sat(e, w)(i) == ltl_holds(e, w, i));
            }
        },
        LtlV::V(p, q) => {
            let a = ltl_sat(*p, w);
            let b = ltl_sat(*q, w);
            assert(forall|k: nat| #[trigger] a(k) == ltl_holds(*p, w, k));
            assert(forall|k: nat| #[trigger] b(k) == ltl_holds(*q, w, k));
            assert forall|i: nat| #[trigger] ltl_holds(e, w, i) == ltl_step(e, w, i) by {
                assert(ltl_sat(e, w)(i) == ltl_holds(e, w, i));
            }
        },
    }
}

proof fn lemma_nnf_step(f: NnfV, w: spec_fn(nat) -> Set<Seq<char>>)
    ensures
        forall|i: nat| #[trigger] nnf_holds(f, w, i) == nnf_step(f, w, i),
{
    match f {
        NnfV::Lit { .. } | NnfV::Bool(_) => {},
        NnfV::X(p) => {
            let a = nnf_sat(*p, w);
            assert(forall|k: nat| #[trigger] a(k) == nnf_holds(*p, w, k));
        },
        NnfV::And(p, q) => {
            let a = nnf_sat(*p, w);
            let b = nnf_sat(*q, w);
            assert(forall|k: nat| #[trigger] a(k) == nnf_holds(*p, w, k));
            assert(forall|k: nat| #[trigger] b(k) == nnf_holds(*q, w, k));
            assert forall|i: nat| #[trigger] nnf_holds(f, w, i) == nnf_step(f, w, i) by {
                assert(nnf_sat(f, w)(i) == nnf_holds(f, w, i));
            }
        },
        NnfV::Or(p, q) => {
            let a = nnf_sat(*p, w);
            let b = nnf_sat(*q, w);
            assert(forall|k: nat| #[trigger] a(k) == nnf_holds(*p, w, k));
            assert(forall|k: nat| #[trigger] b(k) == nnf_holds(*q, w, k));
            assert forall|i: nat| #[trigger] nnf_holds(f, w, i) == nnf_step(f, w, i) by {
                assert(nnf_sat(f, w)(i) == nnf_holds(f, w, i));
            }
        },
        NnfV::U(p, q) => {
            let a = nnf_sat(*p, w);
            let b = nnf_sat(*q, w);
            assert(forall|k: nat| #[trigger] a(k) == nnf_holds(*p, w, k));
            assert(forall|k: nat| #[trigger] b(k) == nnf_holds(*q, w, k));
            assert forall|i: nat| #[trigger] nnf_holds(f, w, i) == nnf_step(f, w, i) by {
                assert(nnf_sat(f, w)(i) == nnf_holds(f, w, i));
            }
        },
        NnfV::V(p, q) => {
            let a = nnf_sat(*p, w);
            let b = nnf_sat(*q, w);
            assert(forall|k: nat| #[trigger] a(k) == nnf_holds(*p, w, k));
            assert(forall|k: nat| #[trigger] b(k) == nnf_holds(*q, w, k));
            assert forall|i: nat| #[trigger] nnf_holds(f, w, i) == nnf_step(f, w, i) by {
                assert(nnf_sat(f, w)(i) == nnf_holds(f, w, i));
            }
        },
    }
}

/// The negation normal form of a formula holds exactly where the formula
/// does, at every position of every word: in particular it keeps the
/// operands of until and release in their places.
pub proof fn lemma_nnf_equivalent(e: LtlV, w: spec_fn(nat) -> Set<Seq<char>>)
    ensures
        forall|i: nat| #[trigger] nnf_holds(nnf_of(e), w, i) == ltl_holds(e, w, i),
    decreases ltl_size(e),
{
    reveal_with_fuel(ltl_size, 3);
    match e {
        LtlV::True | LtlV::False | LtlV::Lit(_) => {
            lemma_ltl_step(e, w);
            lemma_nnf_step(nnf_of(e), w);
        },
        LtlV::Not(inner) => match *inner {
            LtlV::True | LtlV::False | LtlV::Lit(_) => {
                lemma_ltl_step(e, w);
                lemma_ltl_step(*inner, w);
                lemma_nnf_step(nnf_of(e), w);
            },
            LtlV::And(p, q) => {
                lemma_ltl_step(e, w);
                lemma_nnf_equivalent(LtlV::Not(p), w);
                lemma_ltl_step(LtlV::Not(p), w);
                let a = nnf_of(LtlV::Not(p));
                assert forall|k: nat| #[trigger] nnf_holds(a, w, k) == !ltl_holds(*p, w, k) by {
                    assert(ltl_holds(LtlV::Not(p), w, k) == !ltl_holds(*p, w, k));
                }
                lemma_nnf_equivalent(LtlV::Not(q), w);
                lemma_ltl_step(LtlV::Not(q), w);
                let b = nnf_of(LtlV::Not(q));
                assert forall|k: nat| #[trigger] nnf_holds(b, w, k) == !ltl_holds(*q, w, k) by {
                    assert(ltl_holds(LtlV::Not(q), w, k) == !ltl_holds(*q, w, k));
                }
                lemma_ltl_step(*inner, w);
                lemma_nnf_step(nnf_of(e), w);
                assert forall|i: nat| #[trigger] nnf_holds(nnf_of(e), w, i) == ltl_holds(e, w, i) by {
                    assert(ltl_holds(e, w, i) == !ltl_holds(*inner, w, i));
                }
            },
            LtlV::Or(p, q) => {
                lemma_ltl_step(e, w);
                lemma_nnf_equivalent(LtlV::Not(p), w);
                lemma_ltl_step(LtlV::Not(p), w);
                let a = nnf_of(LtlV::Not(p));
                assert forall|k: nat| #[trigger] nnf_holds(a, w, k) == !ltl_holds(*p, w, k) by {
                    assert(ltl_holds(LtlV::Not(p), w, k) == !ltl_holds(*p, w, k));
                }
                lemma_nnf_equivalent(LtlV::Not(q), w);
                lemma_ltl_step(LtlV::Not(q), w);
                let b = nnf_of(LtlV::Not(q));
                assert forall|k: nat| #[trigger] nnf_holds(b, w, k) == !ltl_holds(*q, w, k) by {
                    assert(ltl_holds(LtlV::Not(q), w, k) == !ltl_holds(*q, w, k));
                }
                lemma_ltl_step(*inner, w);
                lemma_nnf_step(nnf_of(e), w);
                assert forall|i: nat| #[trigger] nnf_holds(nnf_of(e), w, i) == ltl_holds(e, w, i) by {
                    assert(ltl_holds(e, w, i) == !ltl_holds(*inner, w, i));
                }
            },
            LtlV::X(p) => {
                lemma_ltl_step(e, w);
                lemma_nnf_equivalent(LtlV::Not(p), w);
                lemma_ltl_step(LtlV::Not(p), w);
                let a = nnf_of(LtlV::Not(p));
                assert forall|k: nat| #[trigger] nnf_holds(a, w, k) == !ltl_holds(*p, w, k) by {
                    assert(ltl_holds(LtlV::Not(p), w, k) == !ltl_holds(*p, w, k));
                }
                lemma_ltl_step(*inner, w);
                lemma_nnf_step(nnf_of(e), w);
                assert forall|i: nat| #[trigger] nnf_holds(nnf_of(e), w, i) == ltl_holds(e, w, i) by {
                    assert(ltl_holds(e, w, i) == !ltl_holds(*inner, w, i));
                }
            },
            LtlV::G(p) => {
                lemma_ltl_step(e, w);
                lemma_nnf_equivalent(LtlV::Not(p), w);
                lemma_ltl_step(LtlV::Not(p), w);
                let a = nnf_of(LtlV::Not(p));
                assert forall|k: nat| #[trigger] nnf_holds(a, w, k) == !ltl_holds(*p, w, k) by {
                    assert(ltl_holds(LtlV::Not(p), w, k) == !ltl_holds(*p, w, k));
                }
                lemma_ltl_step(*inner, w);
                lemma_nnf_step(nnf_of(e), w);
                assert forall|i: nat| #[trigger] nnf_holds(nnf_of(e), w, i) == ltl_holds(e, w, i) by {
                    assert(ltl_holds(e, w, i) == !ltl_holds(*inner, w, i));
                    if ltl_holds(e, w, i) {
                        let k = choose|k: nat| k >= i && !ltl_holds(*p, w, k);
                        assert(nnf_holds(a, w, k));
                        assert(forall|j: nat| i <= j < k ==> #[trigger] nnf_holds(NnfV::Bool(true), w, j));
                    }
                    if nnf_holds(nnf_of(e), w, i) {
                        let k = choose|k: nat|
                            k >= i && #[trigger] nnf_holds(a, w, k) && forall|j: nat| i <= j < k ==> #[trigger] nnf_holds(NnfV::Bool(true), w, j);
                        assert(!ltl_holds(*p, w, k));
                    }
                }
            },
            LtlV::F(p) => {
                lemma_ltl_step(e, w);
                lemma_nnf_equivalent(LtlV::Not(p), w);
                lemma_ltl_step(LtlV::Not(p), w);
                let a = nnf_of(LtlV::Not(p));
                assert forall|k: nat| #[trigger] nnf_holds(a, w, k) == !ltl_holds(*p, w, k) by {
                    assert(ltl_holds(LtlV::Not(p), w, k) == !ltl_holds(*p, w, k));
                }
                lemma_ltl_step(*inner, w);
                lemma_nnf_step(nnf_of(e), w);
                assert forall|i: nat| #[trigger] nnf_holds(nnf_of(e), w, i) == ltl_holds(e, w, i) by {
                    assert(ltl_holds(e, w, i) == !ltl_holds(*inner, w, i));
                    if !ltl_holds(e, w, i) {
                        let k = choose|k: nat| k >= i && ltl_holds(*p, w, k);
                        assert(!nnf_holds(a, w, k));
                    }
                    if !nnf_holds(nnf_of(e), w, i) {
                        let k = choose|k: nat|
                            k >= i && !(#[trigger] nnf_holds(a, w, k) || exists|j: nat| i <= j < k && #[trigger] nnf_holds(NnfV::Bool(false), w, j));
                        assert(ltl_holds(*p, w, k));
                    }
                }
            },
            LtlV::U(p, q) => {
                lemma_ltl_step(e, w);
                lemma_nnf_equivalent(LtlV::Not(p), w);
                lemma_ltl_step(LtlV::Not(p), w);
                let a = nnf_of(LtlV::Not(p));
                assert forall|k: nat| #[trigger] nnf_holds(a, w, k) == !ltl_holds(*p, w, k) by {
                    assert(ltl_holds(LtlV::Not(p), w, k) == !ltl_holds(*p, w, k));
                }
                lemma_nnf_equivalent(LtlV::Not(q), w);
                lemma_ltl_step(LtlV::Not(q), w);
                let b = nnf_of(LtlV::Not(q));
                assert forall|k: nat| #[trigger] nnf_holds(b, w, k) == !ltl_holds(*q, w, k) by {
                    assert(ltl_holds(LtlV::Not(q), w, k) == !ltl_holds(*q, w, k));
                }
                lemma_ltl_step(*inner, w);
                lemma_nnf_step(nnf_of(e), w);
                assert forall|i: nat| #[trigger] nnf_holds(nnf_of(e), w, i) == ltl_holds(e, w, i) by {
                    assert(ltl_holds(e, w, i) == !ltl_holds(*inner, w, i));
                    if !ltl_holds(e, w, i) {
                        let k = choose|k: nat|
                            k >= i && #[trigger] ltl_holds(*q, w, k) && forall|j: nat| i <= j < k ==> #[trigger] ltl_holds(*p, w, j);
                        assert(!nnf_holds(b, w, k));
                        assert(!exists|j: nat| i <= j < k && #[trigger] nnf_holds(a, w, j));
                    }
                    if !nnf_holds(nnf_of(e), w, i) {
                        let k = choose|k: nat|
                            k >= i && !(#[trigger] nnf_holds(b, w, k) || exists|j: nat| i <= j < k && #[trigger] nnf_holds(a, w, j));
                        assert(ltl_holds(*q, w, k));
                        assert forall|j: nat| i <= j < k implies #[trigger] ltl_holds(*p, w, j) by {
                            assert(!nnf_holds(a, w, j));
                        }
                    }
                }
            },
            LtlV::R(p, q) => {
                lemma_ltl_step(e, w);
                lemma_nnf_equivalent(LtlV::Not(p), w);
                lemma_ltl_step(LtlV::Not(p), w);
                let a = nnf_of(LtlV::Not(p));
                assert forall|k: nat| #[trigger] nnf_holds(a, w, k) == !ltl_holds(*p, w, k) by {
                    assert(ltl_holds(LtlV::Not(p), w, k) == !ltl_holds(*p, w, k));
                }
                lemma_nnf_equivalent(LtlV::Not(q), w);
                lemma_ltl_step(LtlV::Not(q), w);
                let b = nnf_of(LtlV::Not(q));
                assert forall|k: nat| #[trigger] nnf_holds(b, w, k) == !ltl_holds(*q, w, k) by {
                    assert(ltl_holds(LtlV::Not(q), w, k) == !ltl_holds(*q, w, k));
                }
                lemma_ltl_step(*inner, w);
                lemma_nnf_step(nnf_of(e), w);
                assert forall|i: nat| #[trigger] nnf_holds(nnf_of(e), w, i) == ltl_holds(e, w, i) by {
                    assert(ltl_holds(e, w, i) == !ltl_holds(*inner, w, i));
                    if ltl_holds(e, w, i) {
                        let k = choose|k: nat|
                            k >= i && !(#[trigger] ltl_holds(*q, w, k) || exists|j: nat| i <= j < k && #[trigger] ltl_holds(*p, w, j));
                        assert(nnf_holds(b, w, k));
                        assert forall|j: nat| i <= j < k implies #[trigger] nnf_holds(a, w, j) by {
                            assert(!ltl_holds(*p, w, j));
                        }
                    }
                    if nnf_holds(nnf_of(e), w, i) {
                        let k = choose|k: nat|
                            k >= i && #[trigger] nnf_holds(b, w, k) && forall|j: nat| i <= j < k ==> #[trigger] nnf_holds(a, w, j);
                        assert(!ltl_holds(*q, w, k));
                        assert forall|j: nat| i <= j < k implies !#[trigger] ltl_holds(*p, w, j) by {
                            assert(nnf_holds(a, w, j));
                        }
                        assert(!exists|j: nat| i <= j < k && #[trigger] ltl_holds(*p, w, j));
                    }
                }
            },
            LtlV::V(p, q) => {
                lemma_ltl_step(e, w);
                lemma_nnf_equivalent(LtlV::Not(p), w);
                lemma_ltl_step(LtlV::Not(p), w);
                let a = nnf_of(LtlV::Not(p));
                assert forall|k: nat| #[trigger] nnf_holds(a, w, k) == !ltl_holds(*p, w, k) by {
                    assert(ltl_holds(LtlV::Not(p), w, k) == !ltl_holds(*p, w, k));
                }
                lemma_nnf_equivalent(LtlV::Not(q), w);
                lemma_ltl_step(LtlV::Not(q), w);
                let b = nnf_of(LtlV::Not(q));
                assert forall|k: nat| #[trigger] nnf_holds(b, w, k) == !ltl_holds(*q, w, k) by {
                    assert(ltl_holds(LtlV::Not(q), w, k) == !ltl_holds(*q, w, k));
                }
                lemma_ltl_step(*inner, w);
                lemma_nnf_step(nnf_of(e), w);
                assert forall|i: nat| #[trigger] nnf_holds(nnf_of(e), w, i) == ltl_holds(e, w, i) by {
                    assert(ltl_holds(e, w, i) == !ltl_holds(*inner, w, i));
                    if ltl_holds(e, w, i) {
                        let k = choose|k: nat|
                            k >= i && !(#[trigger] ltl_holds(*q, w, k) || exists|j: nat| i <= j < k && #[trigger] ltl_holds(*p, w, j));
                        assert(nnf_holds(b, w, k));
                        assert forall|j: nat| i <= j < k implies #[trigger] nnf_holds(a, w, j) by {
                            assert(!ltl_holds(*p, w, j));
                        }
                    }
                    if nnf_holds(nnf_of(e), w, i) {
                        let k = choose|k: nat|
                            k >= i && #[trigger] nnf_holds(b, w, k) && forall|j: nat| i <= j < k ==> #[trigger] nnf_holds(a, w, j);
                        assert(!ltl_holds(*q, w, k));
                        assert forall|j: nat| i <= j < k implies !#[trigger] ltl_holds(*p, w, j) by {
                            assert(nnf_holds(a, w, j));
                        }
                        assert(!exists|j: nat| i <= j < k && #[trigger] ltl_holds(*p, w, j));
                    }
                }
            },
            LtlV::Not(p) => {
                lemma_nnf_equivalent(*p, w);
                lemma_ltl_step(e, w);
                lemma_ltl_step(*inner, w);
            },
        },
        LtlV::And(p, q) => {
            lemma_nnf_equivalent(*p, w);
            let a = nnf_of(*p);
            lemma_nnf_equivalent(*q, w);
            let b = nnf_of(*q);
            lemma_ltl_step(e, w);
            lemma_nnf_step(nnf_of(e), w);
        },
        LtlV::Or(p, q) => {
            lemma_nnf_equivalent(*p, w);
            let a = nnf_of(*p);
            lemma_nnf_equivalent(*q, w);
            let b = nnf_of(*q);
            lemma_ltl_step(e, w);
            lemma_nnf_step(nnf_of(e), w);
        },
        LtlV::X(p) => {
            lemma_nnf_equivalent(*p, w);
            let a = nnf_of(*p);
            lemma_ltl_step(e, w);
            lemma_nnf_step(nnf_of(e), w);
        },
        LtlV::G(p) => {
            lemma_nnf_equivalent(*p, w);
            let a = nnf_of(*p);
            lemma_ltl_step(e, w);
            lemma_nnf_step(nnf_of(e), w);
            assert forall|i: nat| #[trigger] nnf_holds(nnf_of(e), w, i) == ltl_holds(e, w, i) by {
                if !ltl_holds(e, w, i) {
                    let k = choose|k: nat| k >= i && !ltl_holds(*p, w, k);
                    assert(!nnf_holds(a, w, k));
                }
                if !nnf_holds(nnf_of(e), w, i) {
                    let k = choose|k: nat|
                        k >= i && !(#[trigger] nnf_holds(a, w, k) || exists|j: nat| i <= j < k && #[trigger] nnf_holds(NnfV::Bool(false), w, j));
                    assert(!ltl_holds(*p, w, k));
                }
            }
        },
        LtlV::F(p) => {
            lemma_nnf_equivalent(*p, w);
            let a = nnf_of(*p);
            lemma_ltl_step(e, w);
            lemma_nnf_step(nnf_of(e), w);
            assert forall|i: nat| #[trigger] nnf_holds(nnf_of(e), w, i) == ltl_holds(e, w, i) by {
                if ltl_holds(e, w, i) {
                    let k = choose|k: nat| k >= i && ltl_holds(*p, w, k);
                    assert(nnf_holds(a, w, k));
                    assert(forall|j: nat| i <= j < k ==> #[trigger] nnf_holds(NnfV::Bool(true), w, j));
                }
                if nnf_holds(nnf_of(e), w, i) {
                    let k = choose|k: nat|
                        k >= i && #[trigger] nnf_holds(a, w, k) && forall|j: nat| i <= j < k ==> #[trigger] nnf_holds(NnfV::Bool(true), w, j);
                    assert(ltl_holds(*p, w, k));
                }
            }
        },
        LtlV::U(p, q) => {
            lemma_nnf_equivalent(*p, w);
            let a = nnf_of(*p);
            lemma_nnf_equivalent(*q, w);
            let b = nnf_of(*q);
            lemma_ltl_step(e, w);
            lemma_nnf_step(nnf_of(e), w);
            assert forall|i: nat| #[trigger] nnf_holds(nnf_of(e), w, i) == ltl_holds(e, w, i) by {
                if ltl_holds(e, w, i) {
                    let k = choose|k: nat|
                        k >= i && #[trigger] ltl_holds(*q, w, k) && forall|j: nat| i <= j < k ==> #[trigger] ltl_holds(*p, w, j);
                    assert(nnf_holds(b, w, k));
                    assert forall|j: nat| i <= j < k implies #[trigger] nnf_holds(a, w, j) by {
                        assert(ltl_holds(*p, w, j));
                    }
                }
                if nnf_holds(nnf_of(e), w, i) {
                    let k = choose|k: nat|
                        k >= i && #[trigger] nnf_holds(b, w, k) && forall|j: nat| i <= j < k ==> #[trigger] nnf_holds(a, w, j);
                    assert(ltl_holds(*q, w, k));
                    assert forall|j: nat| i <= j < k implies #[trigger] ltl_holds(*p, w, j) by {
                        assert(nnf_holds(a, w, j));
                    }
                }
            }
        },
        LtlV::R(p, q) => {
            lemma_nnf_equivalent(*p, w);
            let a = nnf_of(*p);
            lemma_nnf_equivalent(*q, w);
            let b = nnf_of(*q);
            lemma_ltl_step(e, w);
            lemma_nnf_step(nnf_of(e), w);
            assert forall|i: nat| #[trigger] nnf_holds(nnf_of(e), w, i) == ltl_holds(e, w, i) by {
                if !ltl_holds(e, w, i) {
                    let k = choose|k: nat|
                        k >= i && !(#[trigger] ltl_holds(*q, w, k) || exists|j: nat| i <= j < k && #[trigger] ltl_holds(*p, w, j));
                    assert(!nnf_holds(b, w, k));
                    assert forall|j: nat| i <= j < k implies !#[trigger] nnf_holds(a, w, j) by {
                        assert(!ltl_holds(*p, w, j));
                    }
                    assert(!exists|j: nat| i <= j < k && #[trigger] nnf_holds(a, w, j));
                }
                if !nnf_holds(nnf_of(e), w, i) {
                    let k = choose|k: nat|
                        k >= i && !(#[trigger] nnf_holds(b, w, k) || exists|j: nat| i <= j < k && #[trigger] nnf_holds(a, w, j));
                    assert(!ltl_holds(*q, w, k));
                    assert forall|j: nat| i <= j < k implies !#[trigger] ltl_holds(*p, w, j) by {
                        assert(!nnf_holds(a, w, j));
                    }
                    assert(!exists|j: nat| i <= j < k && #[trigger] ltl_holds(*p, w, j));
                }
            }
        },
        LtlV::V(p, q) => {
            lemma_nnf_equivalent(*p, w);
            let a = nnf_of(*p);
            lemma_nnf_equivalent(*q, w);
            let b = nnf_of(*q);
            lemma_ltl_step(e, w);
            lemma_nnf_step(nnf_of(e), w);
            assert forall|i: nat| #[trigger] nnf_holds(nnf_of(e), w, i) == ltl_holds(e, w, i) by {
                if !ltl_holds(e, w, i) {
                    let k = choose|k: nat|
                        k >= i && !(#[trigger] ltl_holds(*q, w, k) || exists|j: nat| i <= j < k && #[trigger] ltl_holds(*p, w, j));
                    assert(!nnf_holds(b, w, k));
                    assert forall|j: nat| i <= j < k implies !#[trigger] nnf_holds(a, w, j) by {
                        assert(!ltl_holds(*p, w, j));
                    }
                    assert(!exists|j: nat| i <= j < k && #[trigger] nnf_holds(a, w, j));
                }
                if !nnf_holds(nnf_of(e), w, i) {
                    let k = choose|k: nat|
                        k >= i && !(#[trigger] nnf_holds(b, w, k) || exists|j: nat| i <= j < k && #[trigger] nnf_holds(a, w, j));
                    assert(!ltl_holds(*q, w, k));
                    assert forall|j: nat| i <= j < k implies !#[trigger] ltl_holds(*p, w, j) by {
                        assert(!nnf_holds(a, w, j));
                    }
                    assert(!exists|j: nat| i <= j < k && #[trigger] ltl_holds(*p, w, j));
                }
            }
        },
    }
}

} // verus!
