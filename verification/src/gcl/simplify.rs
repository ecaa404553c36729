//! Simplification of expressions: what evaluates without a context becomes a
//! constant, and neutral and absorbing operands are removed.
use vstd::prelude::*;

use super::ast::{AExpr, AOp, BExpr, Function, LogicOp, Target};
use super::semantics::{aexpr_sem, aop_sem, bexpr_sem, empty_model, ContextModel, EmptySemanticsContext};

verus! {

/// `l op r` once both operands are simplified.
pub open spec fn simplify_binary(l: AExpr, op: AOp, r: AExpr) -> AExpr {
    match op {
        AOp::Plus => if l == AExpr::Number(0) {
            r
        } else if r == AExpr::Number(0) {
            l
        } else {
            AExpr::Binary(Box::new(l), op, Box::new(r))
        },
        AOp::Minus => if l == AExpr::Number(0) {
            AExpr::Minus(Box::new(r))
        } else if r == AExpr::Number(0) {
            l
        } else {
            AExpr::Binary(Box::new(l), op, Box::new(r))
        },
        AOp::Times => if l == AExpr::Number(1) {
            r
        } else if r == AExpr::Number(1) {
            l
        } else if l == AExpr::Number(0) || r == AExpr::Number(0) {
            AExpr::Number(0)
        } else {
            AExpr::Binary(Box::new(l), op, Box::new(r))
        },
        AOp::Divide => if l == AExpr::Number(0) {
            AExpr::Number(0)
        } else if r == AExpr::Number(1) {
            l
        } else {
            AExpr::Binary(Box::new(l), op, Box::new(r))
        },
        AOp::Pow => AExpr::Binary(Box::new(l), op, Box::new(r)),
    }
}

/// The simplified arithmetic expression.
pub open spec fn aexpr_simplify(e: AExpr) -> AExpr
    decreases e,
{
    match aexpr_sem(e, empty_model()) {
        Some(Ok(n)) => AExpr::Number(n),
        _ => match e {
            AExpr::Number(n) => AExpr::Number(n),
            AExpr::Reference(t) => match t {
                Target::Variable(v) => AExpr::Reference(Target::Variable(v)),
                Target::Array(a, i) => AExpr::Reference(
                    Target::Array(a, Box::new(aexpr_simplify(*i))),
                ),
            },
            AExpr::Binary(l, op, r) => simplify_binary(aexpr_simplify(*l), op, aexpr_simplify(*r)),
            AExpr::Minus(x) => match *x {
                AExpr::Minus(inner) => aexpr_simplify(*inner),
                _ => AExpr::Minus(Box::new(aexpr_simplify(*x))),
            },
            AExpr::Function(_) => e,
        },
    }
}

/// Simplifying `e` does not panic: no subexpression that it evaluates
/// divides the least integer by -1.
pub open spec fn aexpr_simplifies(e: AExpr) -> bool
    decreases e,
{
    match aexpr_sem(e, empty_model()) {
        None => false,
        Some(Ok(_)) => true,
        Some(Err(_)) => match e {
            AExpr::Reference(t) => match t {
                Target::Variable(_) => true,
                Target::Array(_, i) => aexpr_simplifies(*i),
            },
            AExpr::Binary(l, _, r) => aexpr_simplifies(*l) && aexpr_simplifies(*r),
            AExpr::Minus(x) => match *x {
                AExpr::Minus(inner) => aexpr_simplifies(*inner),
                _ => aexpr_simplifies(*x),
            },
            _ => true,
        },
    }
}

/// `l op r` once both operands are simplified.
pub open spec fn simplify_logic(l: BExpr, op: LogicOp, r: BExpr) -> BExpr {
    match op {
        LogicOp::And => if l == BExpr::Bool(true) {
            r
        } else if r == BExpr::Bool(true) {
            l
        } else if l == BExpr::Bool(false) || r == BExpr::Bool(false) {
            BExpr::Bool(false)
        } else {
            BExpr::Logic(Box::new(l), op, Box::new(r))
        },
        LogicOp::Or => if l == BExpr::Bool(false) {
            r
        } else if r == BExpr::Bool(false) {
            l
        } else if l == BExpr::Bool(true) || r == BExpr::Bool(true) {
            BExpr::Bool(true)
        } else {
            BExpr::Logic(Box::new(l), op, Box::new(r))
        },
        _ => BExpr::Logic(Box::new(l), op, Box::new(r)),
    }
}

/// The simplified boolean expression.
pub open spec fn bexpr_simplify(b: BExpr) -> BExpr
    decreases b,
{
    match bexpr_sem(b, empty_model()) {
        Some(Ok(v)) => BExpr::Bool(v),
        _ => match b {
            BExpr::Bool(v) => BExpr::Bool(v),
            BExpr::Rel(l, op, r) => BExpr::Rel(aexpr_simplify(l), op, aexpr_simplify(r)),
            BExpr::Logic(l, op, r) => simplify_logic(bexpr_simplify(*l), op, bexpr_simplify(*r)),
            BExpr::Not(x) => match bexpr_simplify(*x) {
                BExpr::Bool(v) => BExpr::Bool(!v),
                y => BExpr::Not(Box::new(y)),
            },
            BExpr::Quantified(_, _, _) => b,
        },
    }
}

/// Simplifying `b` does not panic: no subexpression that it evaluates
/// divides the least integer by -1, and it reaches no quantifier.
pub open spec fn bexpr_simplifies(b: BExpr) -> bool
    decreases b,
{
    match bexpr_sem(b, empty_model()) {
        None => false,
        Some(Ok(_)) => true,
        Some(Err(_)) => match b {
            BExpr::Bool(_) => true,
            BExpr::Rel(l, _, r) => aexpr_simplifies(l) && aexpr_simplifies(r),
            BExpr::Logic(l, _, r) => bexpr_simplifies(*l) && bexpr_simplifies(*r),
            BExpr::Not(x) => bexpr_simplifies(*x),
            BExpr::Quantified(_, _, _) => false,
        },
    }
}

fn is_number(e: &AExpr, n: i64) -> (r: bool)
    ensures
        r == (*e == AExpr::Number(n)),
{
    match e {
        AExpr::Number(m) => *m == n,
        _ => false,
    }
}

fn is_bool(b: &BExpr, v: bool) -> (r: bool)
    ensures
        r == (*b == BExpr::Bool(v)),
{
    match b {
        BExpr::Bool(w) => *w == v,
        _ => false,
    }
}

impl AExpr {
    /// The simplified expression: a constant where the expression evaluates
    /// without a context, and otherwise the expression with its parts
    /// simplified and neutral or absorbing operands removed.
    pub fn simplify(&self) -> (r: AExpr)
        requires
            aexpr_simplifies(*self),
        ensures
            r == aexpr_simplify(*self),
        decreases super::ast::aexpr_size(*self), 1int,
    {
        match self.semantics(&EmptySemanticsContext) {
            Ok(n) => AExpr::Number(n),
            Err(_) => match self {
                AExpr::Number(n) => AExpr::Number(*n),
                AExpr::Reference(v) => AExpr::Reference(v.simplify()),
                AExpr::Binary(l, op, r) => {
                    let l = l.simplify();
                    let r = r.simplify();
                    match op {
                        AOp::Plus => {
                            if is_number(&l, 0) {
                                r
                            } else if is_number(&r, 0) {
                                l
                            } else {
                                AExpr::binary(l, *op, r)
                            }
                        },
                        AOp::Minus => {
                            if is_number(&l, 0) {
                                AExpr::Minus(Box::new(r))
                            } else if is_number(&r, 0) {
                                l
                            } else {
                                AExpr::binary(l, *op, r)
                            }
                        },
                        AOp::Times => {
                            if is_number(&l, 1) {
                                r
                            } else if is_number(&r, 1) {
                                l
                            } else if is_number(&l, 0) || is_number(&r, 0) {
                                AExpr::Number(0)
                            } else {
                                AExpr::binary(l, *op, r)
                            }
                        },
                        AOp::Divide => {
                            if is_number(&l, 0) {
                                AExpr::Number(0)
                            } else if is_number(&r, 1) {
                                l
                            } else {
                                AExpr::binary(l, *op, r)
                            }
                        },
                        AOp::Pow => AExpr::binary(l, *op, r),
                    }
                },
                AExpr::Minus(e) => match &**e {
                    AExpr::Minus(inner) => {
                        assert(super::ast::aexpr_size(**e) == 1 + super::ast::aexpr_size(**inner));
                        inner.simplify()
                    },
                    _ => AExpr::Minus(Box::new(e.simplify())),
                },
                AExpr::Function(_) => self.clone(),
            },
        }
    }
}

impl Target<Box<AExpr>> {
    /// The target with its index simplified.
    pub fn simplify(&self) -> (r: Self)
        requires
            aexpr_simplifies(AExpr::Reference(*self)),
        ensures
            AExpr::Reference(r) == (match *self {
                Target::Variable(v) => AExpr::Reference(Target::Variable(v)),
                Target::Array(a, i) => AExpr::Reference(
                    Target::Array(a, Box::new(aexpr_simplify(*i))),
                ),
            }),
        decreases super::ast::aexpr_size(AExpr::Reference(*self)), 0int,
    {
        match self {
            Target::Variable(v) => Target::Variable(v.clone()),
            Target::Array(arr, idx) => Target::Array(arr.clone(), Box::new(idx.simplify())),
        }
    }
}

impl BExpr {
    /// The simplified expression: a constant where the expression evaluates
    /// without a context, and otherwise the expression with its parts
    /// simplified and neutral or absorbing operands removed.
    pub fn simplify(&self) -> (r: BExpr)
        requires
            bexpr_simplifies(*self),
        ensures
            r == bexpr_simplify(*self),
        decreases *self,
    {
        match self.semantics(&EmptySemanticsContext) {
            Ok(b) => BExpr::Bool(b),
            Err(_) => match self {
                BExpr::Bool(b) => BExpr::Bool(*b),
                BExpr::Rel(l, op, r) => BExpr::Rel(l.simplify(), *op, r.simplify()),
                BExpr::Logic(l, op, r) => {
                    let l = l.simplify();
                    let r = r.simplify();
                    match op {
                        LogicOp::And => {
                            if is_bool(&l, true) {
                                r
                            } else if is_bool(&r, true) {
                                l
                            } else if is_bool(&l, false) || is_bool(&r, false) {
                                BExpr::Bool(false)
                            } else {
                                BExpr::logic(l, *op, r)
                            }
                        },
                        LogicOp::Or => {
                            if is_bool(&l, false) {
                                r
                            } else if is_bool(&r, false) {
                                l
                            } else if is_bool(&l, true) || is_bool(&r, true) {
                                BExpr::Bool(true)
                            } else {
                                BExpr::logic(l, *op, r)
                            }
                        },
                        _ => BExpr::logic(l, *op, r),
                    }
                },
                BExpr::Not(x) => {
                    let x = x.simplify();
                    match x {
                        BExpr::Bool(b) => BExpr::Bool(!b),
                        x => BExpr::Not(Box::new(x)),
                    }
                },
                BExpr::Quantified(_, _, _) => self.clone(),
            },
        }
    }
}

/// An arithmetic expression that evaluates without a context has that value
/// in every context.
pub proof fn lemma_aexpr_closed_value(e: AExpr, cx: ContextModel)
    requires
        aexpr_sem(e, empty_model()) matches Some(Ok(_)),
    ensures
        aexpr_sem(e, cx) == aexpr_sem(e, empty_model()),
    decreases e,
{
    match e {
        AExpr::Reference(t) => match t {
            Target::Array(_, i) => {
                if aexpr_sem(*i, empty_model()) matches Some(Ok(_)) {
                    lemma_aexpr_closed_value(*i, cx);
                }
            },
            _ => {},
        },
        AExpr::Binary(l, _, r) => {
            lemma_aexpr_closed_value(*l, cx);
            lemma_aexpr_closed_value(*r, cx);
        },
        AExpr::Minus(x) => lemma_aexpr_closed_value(*x, cx),
        AExpr::Function(f) => match f {
            Function::Division(a, b) | Function::Min(a, b) | Function::Max(a, b) => {
                lemma_aexpr_closed_value(*a, cx);
                lemma_aexpr_closed_value(*b, cx);
            },
            Function::Count(_, i) | Function::LogicalCount(_, i) => {
                if aexpr_sem(*i, empty_model()) matches Some(Ok(_)) {
                    lemma_aexpr_closed_value(*i, cx);
                }
            },
            Function::Fac(i) | Function::Fib(i) => lemma_aexpr_closed_value(*i, cx),
            _ => {},
        },
        _ => {},
    }
}

/// A boolean expression that evaluates without a context has that value in
/// every context.
pub proof fn lemma_bexpr_closed_value(b: BExpr, cx: ContextModel)
    requires
        bexpr_sem(b, empty_model()) matches Some(Ok(_)),
    ensures
        bexpr_sem(b, cx) == bexpr_sem(b, empty_model()),
    decreases b,
{
    match b {
        BExpr::Rel(l, _, r) => {
            lemma_aexpr_closed_value(l, cx);
            lemma_aexpr_closed_value(r, cx);
        },
        BExpr::Logic(l, op, r) => {
            lemma_bexpr_closed_value(*l, cx);
            if bexpr_sem(*r, empty_model()) matches Some(Ok(_)) {
                lemma_bexpr_closed_value(*r, cx);
            }
        },
        BExpr::Not(x) => lemma_bexpr_closed_value(*x, cx),
        _ => {},
    }
}

proof fn lemma_simplify_binary_value(
    l: AExpr,
    op: AOp,
    r: AExpr,
    cx: ContextModel,
    a: i64,
    b: i64,
)
    requires
        aexpr_sem(l, cx) == Some(Ok::<i64, super::semantics::SemanticsError>(a)),
        aexpr_sem(r, cx) == Some(Ok::<i64, super::semantics::SemanticsError>(b)),
        aop_sem(op, a, b) matches Some(Ok(_)),
    ensures
        aexpr_sem(simplify_binary(l, op, r), cx) == aop_sem(op, a, b),
{
}

/// Simplification keeps the value of every arithmetic expression that has
/// one, in every context.
pub proof fn lemma_aexpr_simplify_value(e: AExpr, cx: ContextModel)
    requires
        aexpr_sem(e, cx) matches Some(Ok(_)),
    ensures
        aexpr_sem(aexpr_simplify(e), cx) == aexpr_sem(e, cx),
    decreases e,
{
    if aexpr_sem(e, empty_model()) matches Some(Ok(_)) {
        lemma_aexpr_closed_value(e, cx);
    } else {
        match e {
            AExpr::Reference(t) => match t {
                Target::Array(_, i) => lemma_aexpr_simplify_value(*i, cx),
                _ => {},
            },
            AExpr::Binary(l, op, r) => {
                lemma_aexpr_simplify_value(*l, cx);
                lemma_aexpr_simplify_value(*r, cx);
                let a = aexpr_sem(*l, cx)->Some_0->Ok_0;
                let b = aexpr_sem(*r, cx)->Some_0->Ok_0;
                lemma_simplify_binary_value(aexpr_simplify(*l), op, aexpr_simplify(*r), cx, a, b);
            },
            AExpr::Minus(x) => {
                match *x {
                    AExpr::Minus(inner) => {
                        assert(aexpr_sem(*x, cx) matches Some(Ok(_)));
                        lemma_aexpr_simplify_value(*inner, cx);
                    },
                    _ => lemma_aexpr_simplify_value(*x, cx),
                }
            },
            _ => {},
        }
    }
}

/// Simplification keeps the value of every boolean expression that has one,
/// in every context.
pub proof fn lemma_bexpr_simplify_value(b: BExpr, cx: ContextModel)
    requires
        bexpr_sem(b, cx) matches Some(Ok(_)),
    ensures
        bexpr_sem(bexpr_simplify(b), cx) == bexpr_sem(b, cx),
    decreases b,
{
    if bexpr_sem(b, empty_model()) matches Some(Ok(_)) {
        lemma_bexpr_closed_value(b, cx);
    } else {
        match b {
            BExpr::Rel(l, _, r) => {
                lemma_aexpr_simplify_value(l, cx);
                lemma_aexpr_simplify_value(r, cx);
            },
            BExpr::Logic(l, op, r) => {
                lemma_bexpr_simplify_value(*l, cx);
                if bexpr_sem(*r, cx) matches Some(Ok(_)) {
                    lemma_bexpr_simplify_value(*r, cx);
                }
            },
            BExpr::Not(x) => lemma_bexpr_simplify_value(*x, cx),
            _ => {},
        }
    }
}

} // verus!
