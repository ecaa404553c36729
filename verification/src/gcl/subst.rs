//! Building expressions, substituting an expression for a target, and
//! asking whether a target occurs.
use vstd::prelude::*;

use super::ast::{AExpr, AOp, BExpr, Function, LogicOp, RelOp, Target, Variable};
use super::ast_ext::tkey;
use super::semantics::{aexpr_sem, ContextModel, SemanticsError};

verus! {

/// `e` with `x` in place of every reference to the target named by `k`.
/// The index of an array reference is kept as it is.
pub open spec fn aexpr_subst(e: AExpr, k: (bool, Seq<char>), x: AExpr) -> AExpr
    decreases e,
{
    match e {
        AExpr::Number(n) => AExpr::Number(n),
        AExpr::Reference(v) => if tkey(v) == k {
            x
        } else {
            AExpr::Reference(v)
        },
        AExpr::Binary(l, op, r) => AExpr::Binary(
            Box::new(aexpr_subst(*l, k, x)),
            op,
            Box::new(aexpr_subst(*r, k, x)),
        ),
        AExpr::Minus(y) => AExpr::Minus(Box::new(aexpr_subst(*y, k, x))),
        AExpr::Function(f) => AExpr::Function(
            match f {
                Function::Division(a, b) => Function::Division(
                    Box::new(aexpr_subst(*a, k, x)),
                    Box::new(aexpr_subst(*b, k, x)),
                ),
                Function::Min(a, b) => Function::Min(
                    Box::new(aexpr_subst(*a, k, x)),
                    Box::new(aexpr_subst(*b, k, x)),
                ),
                Function::Max(a, b) => Function::Max(
                    Box::new(aexpr_subst(*a, k, x)),
                    Box::new(aexpr_subst(*b, k, x)),
                ),
                Function::Count(arr, i) => Function::Count(arr, Box::new(aexpr_subst(*i, k, x))),
                Function::LogicalCount(arr, i) => Function::LogicalCount(
                    arr,
                    Box::new(aexpr_subst(*i, k, x)),
                ),
                Function::Length(arr) => Function::Length(arr),
                Function::LogicalLength(arr) => Function::LogicalLength(arr),
                Function::Fac(n) => Function::Fac(Box::new(aexpr_subst(*n, k, x))),
                Function::Fib(n) => Function::Fib(Box::new(aexpr_subst(*n, k, x))),
            },
        ),
    }
}

/// The substitution inside a function application.
pub open spec fn function_subst(f: Function, k: (bool, Seq<char>), x: AExpr) -> Function {
    match aexpr_subst(AExpr::Function(f), k, x) {
        AExpr::Function(g) => g,
        _ => f,
    }
}

/// `b` with `x` in place of every free reference to the target named by `k`;
/// a quantifier that binds that name is left as it is.
pub open spec fn bexpr_subst(b: BExpr, k: (bool, Seq<char>), x: AExpr) -> BExpr
    decreases b,
{
    match b {
        BExpr::Bool(v) => BExpr::Bool(v),
        BExpr::Rel(l, op, r) => BExpr::Rel(aexpr_subst(l, k, x), op, aexpr_subst(r, k, x)),
        BExpr::Logic(l, op, r) => BExpr::Logic(
            Box::new(bexpr_subst(*l, k, x)),
            op,
            Box::new(bexpr_subst(*r, k, x)),
        ),
        BExpr::Not(y) => BExpr::Not(Box::new(bexpr_subst(*y, k, x))),
        BExpr::Quantified(q, v, y) => if tkey(v) == k {
            BExpr::Quantified(q, v, y)
        } else {
            BExpr::Quantified(q, v, Box::new(bexpr_subst(*y, k, x)))
        },
    }
}

/// Whether a reference to the target named by `k` occurs in `e`, outside the
/// indices of array references.
pub open spec fn aexpr_contains(e: AExpr, k: (bool, Seq<char>)) -> bool
    decreases e,
{
    match e {
        AExpr::Number(_) => false,
        AExpr::Reference(v) => tkey(v) == k,
        AExpr::Binary(l, _, r) => aexpr_contains(*l, k) || aexpr_contains(*r, k),
        AExpr::Minus(y) => aexpr_contains(*y, k),
        AExpr::Function(f) => match f {
            Function::Division(a, b) | Function::Min(a, b) | Function::Max(a, b) => aexpr_contains(
                *a,
                k,
            ) || aexpr_contains(*b, k),
            Function::Count(_, i) | Function::LogicalCount(_, i) | Function::Fac(i) | Function::Fib(
                i,
            ) => aexpr_contains(*i, k),
            Function::Length(_) | Function::LogicalLength(_) => false,
        },
    }
}

/// Whether a free reference to the target named by `k` occurs in `b`.
pub open spec fn bexpr_contains(b: BExpr, k: (bool, Seq<char>)) -> bool
    decreases b,
{
    match b {
        BExpr::Bool(_) => false,
        BExpr::Rel(l, _, r) => aexpr_contains(l, k) || aexpr_contains(r, k),
        BExpr::Logic(l, _, r) => bexpr_contains(*l, k) || bexpr_contains(*r, k),
        BExpr::Not(y) => bexpr_contains(*y, k),
        BExpr::Quantified(_, v, y) => tkey(v) != k && bexpr_contains(*y, k),
    }
}

impl AExpr {
    /// `lhs op rhs`.
    pub fn binary(lhs: Self, op: AOp, rhs: Self) -> (r: Self)
        ensures
            r == AExpr::Binary(Box::new(lhs), op, Box::new(rhs)),
    {
        AExpr::Binary(Box::new(lhs), op, Box::new(rhs))
    }

    /// The expression with `x` in place of the references to `t`.
    pub fn subst_var<T>(&self, t: &Target<T>, x: &AExpr) -> (r: AExpr)
        ensures
            r == aexpr_subst(*self, tkey(*t), *x),
        decreases super::ast::aexpr_size(*self), 1int,
    {
        match self {
            AExpr::Number(n) => AExpr::Number(*n),
            AExpr::Reference(v) => {
                if v.same_name(t) {
                    x.clone()
                } else {
                    AExpr::Reference(v.copy_indexed())
                }
            },
            AExpr::Binary(l, op, r) => AExpr::binary(l.subst_var(t, x), *op, r.subst_var(t, x)),
            AExpr::Minus(e) => AExpr::Minus(Box::new(e.subst_var(t, x))),
            AExpr::Function(f) => AExpr::Function(f.subst_var(t, x)),
        }
    }

    /// Whether a reference to `t` occurs in the expression.
    pub fn contains_var<T>(&self, t: &Target<T>) -> (r: bool)
        ensures
            r == aexpr_contains(*self, tkey(*t)),
        decreases *self,
    {
        match self {
            AExpr::Number(_) => false,
            AExpr::Reference(v) => v.same_name(t),
            AExpr::Binary(l, _, r) => l.contains_var(t) || r.contains_var(t),
            AExpr::Minus(e) => e.contains_var(t),
            AExpr::Function(f) => match f {
                Function::Division(a, b) | Function::Min(a, b) | Function::Max(a, b) => a.contains_var(
                    t,
                ) || b.contains_var(t),
                Function::Count(_, i) | Function::LogicalCount(_, i) | Function::Fac(i)
                | Function::Fib(i) => i.contains_var(t),
                Function::Length(_) | Function::LogicalLength(_) => false,
            },
        }
    }
}

impl Function {
    /// The function application with `x` in place of the references to `t`
    /// in its arguments.
    pub fn subst_var<T>(&self, t: &Target<T>, x: &AExpr) -> (r: Function)
        ensures
            r == function_subst(*self, tkey(*t), *x),
        decreases super::ast::aexpr_size(AExpr::Function(*self)), 0int,
    {
        match self {
            Function::Division(a, b) => Function::Division(
                Box::new(a.subst_var(t, x)),
                Box::new(b.subst_var(t, x)),
            ),
            Function::Min(a, b) => Function::Min(
                Box::new(a.subst_var(t, x)),
                Box::new(b.subst_var(t, x)),
            ),
            Function::Max(a, b) => Function::Max(
                Box::new(a.subst_var(t, x)),
                Box::new(b.subst_var(t, x)),
            ),
            Function::Count(arr, idx) => Function::Count(arr.clone(), Box::new(idx.subst_var(t, x))),
            Function::LogicalCount(arr, idx) => Function::LogicalCount(
                arr.clone(),
                Box::new(idx.subst_var(t, x)),
            ),
            Function::Length(arr) => Function::Length(arr.clone()),
            Function::LogicalLength(arr) => Function::LogicalLength(arr.clone()),
            Function::Fac(n) => Function::Fac(Box::new(n.subst_var(t, x))),
            Function::Fib(n) => Function::Fib(Box::new(n.subst_var(t, x))),
        }
    }
}

impl BExpr {
    /// `lhs op rhs`.
    pub fn logic(lhs: Self, op: LogicOp, rhs: Self) -> (r: Self)
        ensures
            r == BExpr::Logic(Box::new(lhs), op, Box::new(rhs)),
    {
        BExpr::Logic(Box::new(lhs), op, Box::new(rhs))
    }

    /// `lhs op rhs`.
    pub fn rel(lhs: AExpr, op: RelOp, rhs: AExpr) -> (r: Self)
        ensures
            r == BExpr::Rel(lhs, op, rhs),
    {
        BExpr::Rel(lhs, op, rhs)
    }

    /// The expression with `x` in place of the free references to `t`.
    pub fn subst_var<T>(&self, t: &Target<T>, x: &AExpr) -> (r: BExpr)
        ensures
            r == bexpr_subst(*self, tkey(*t), *x),
        decreases *self,
    {
        match self {
            BExpr::Bool(b) => BExpr::Bool(*b),
            BExpr::Rel(l, op, r) => BExpr::Rel(l.subst_var(t, x), *op, r.subst_var(t, x)),
            BExpr::Logic(l, op, r) => BExpr::logic(l.subst_var(t, x), *op, r.subst_var(t, x)),
            BExpr::Not(e) => BExpr::Not(Box::new(e.subst_var(t, x))),
            BExpr::Quantified(q, v, e) => {
                if v.same_name(t) {
                    self.clone()
                } else {
                    BExpr::Quantified(*q, v.copy(), Box::new(e.subst_var(t, x)))
                }
            },
        }
    }

    /// Whether a free reference to `t` occurs in the expression.
    pub fn contains_var<T>(&self, t: &Target<T>) -> (r: bool)
        ensures
            r == bexpr_contains(*self, tkey(*t)),
        decreases *self,
    {
        match self {
            BExpr::Bool(_) => false,
            BExpr::Rel(l, _, r) => l.contains_var(t) || r.contains_var(t),
            BExpr::Logic(l, _, r) => l.contains_var(t) || r.contains_var(t),
            BExpr::Not(e) => e.contains_var(t),
            BExpr::Quantified(_, v, e) => !v.same_name(t) && e.contains_var(t),
        }
    }
}

/// Substituting for a target that does not occur changes nothing.
pub proof fn lemma_aexpr_subst_absent(e: AExpr, k: (bool, Seq<char>), x: AExpr)
    requires
        !aexpr_contains(e, k),
    ensures
        aexpr_subst(e, k, x) == e,
    decreases e,
{
    match e {
        AExpr::Binary(l, _, r) => {
            lemma_aexpr_subst_absent(*l, k, x);
            lemma_aexpr_subst_absent(*r, k, x);
        },
        AExpr::Minus(y) => lemma_aexpr_subst_absent(*y, k, x),
        AExpr::Function(f) => match f {
            Function::Division(a, b) | Function::Min(a, b) | Function::Max(a, b) => {
                lemma_aexpr_subst_absent(*a, k, x);
                lemma_aexpr_subst_absent(*b, k, x);
            },
            Function::Count(_, i) | Function::LogicalCount(_, i) | Function::Fac(i)
            | Function::Fib(i) => lemma_aexpr_subst_absent(*i, k, x),
            _ => {},
        },
        _ => {},
    }
}

/// Substituting for a target that does not occur freely changes nothing.
pub proof fn lemma_bexpr_subst_absent(b: BExpr, k: (bool, Seq<char>), x: AExpr)
    requires
        !bexpr_contains(b, k),
    ensures
        bexpr_subst(b, k, x) == b,
    decreases b,
{
    match b {
        BExpr::Rel(l, _, r) => {
            lemma_aexpr_subst_absent(l, k, x);
            lemma_aexpr_subst_absent(r, k, x);
        },
        BExpr::Logic(l, _, r) => {
            lemma_bexpr_subst_absent(*l, k, x);
            lemma_bexpr_subst_absent(*r, k, x);
        },
        BExpr::Not(y) => lemma_bexpr_subst_absent(*y, k, x),
        BExpr::Quantified(_, v, y) => {
            if tkey(v) != k {
                lemma_bexpr_subst_absent(*y, k, x);
            }
        },
        _ => {},
    }
}

/// After substituting an expression in which the target does not occur, the
/// target no longer occurs.
pub proof fn lemma_aexpr_subst_removes(e: AExpr, k: (bool, Seq<char>), x: AExpr)
    requires
        !aexpr_contains(x, k),
    ensures
        !aexpr_contains(aexpr_subst(e, k, x), k),
    decreases e,
{
    match e {
        AExpr::Binary(l, _, r) => {
            lemma_aexpr_subst_removes(*l, k, x);
            lemma_aexpr_subst_removes(*r, k, x);
        },
        AExpr::Minus(y) => lemma_aexpr_subst_removes(*y, k, x),
        AExpr::Function(f) => match f {
            Function::Division(a, b) | Function::Min(a, b) | Function::Max(a, b) => {
                lemma_aexpr_subst_removes(*a, k, x);
                lemma_aexpr_subst_removes(*b, k, x);
            },
            Function::Count(_, i) | Function::LogicalCount(_, i) | Function::Fac(i)
            | Function::Fib(i) => lemma_aexpr_subst_removes(*i, k, x),
            _ => {},
        },
        _ => {},
    }
}

/// After substituting an expression in which the target does not occur, the
/// target no longer occurs freely.
pub proof fn lemma_bexpr_subst_removes(b: BExpr, k: (bool, Seq<char>), x: AExpr)
    requires
        !aexpr_contains(x, k),
    ensures
        !bexpr_contains(bexpr_subst(b, k, x), k),
    decreases b,
{
    match b {
        BExpr::Rel(l, _, r) => {
            lemma_aexpr_subst_removes(l, k, x);
            lemma_aexpr_subst_removes(r, k, x);
        },
        BExpr::Logic(l, _, r) => {
            lemma_bexpr_subst_removes(*l, k, x);
            lemma_bexpr_subst_removes(*r, k, x);
        },
        BExpr::Not(y) => lemma_bexpr_subst_removes(*y, k, x),
        BExpr::Quantified(_, v, y) => {
            if tkey(v) != k {
                lemma_bexpr_subst_removes(*y, k, x);
            }
        },
        _ => {},
    }
}

/// No reference to the variable named `name` occurs in `e`, array indices
/// included.
pub open spec fn var_free(e: AExpr, name: Seq<char>) -> bool
    decreases e,
{
    match e {
        AExpr::Number(_) => true,
        AExpr::Reference(t) => match t {
            Target::Variable(w) => w.0@ != name,
            Target::Array(_, idx) => var_free(*idx, name),
        },
        AExpr::Binary(l, _, r) => var_free(*l, name) && var_free(*r, name),
        AExpr::Minus(y) => var_free(*y, name),
        AExpr::Function(f) => match f {
            Function::Division(a, b) | Function::Min(a, b) | Function::Max(a, b) => var_free(*a, name)
                && var_free(*b, name),
            Function::Count(_, i) | Function::LogicalCount(_, i) | Function::Fac(i) | Function::Fib(i) => var_free(
                *i,
                name,
            ),
            Function::Length(_) | Function::LogicalLength(_) => true,
        },
    }
}

/// The index of every array reference in `e` is free of the variable named
/// `name` (substitution does not look into indices).
pub open spec fn indices_var_free(e: AExpr, name: Seq<char>) -> bool
    decreases e,
{
    match e {
        AExpr::Number(_) => true,
        AExpr::Reference(t) => match t {
            Target::Variable(_) => true,
            Target::Array(_, idx) => var_free(*idx, name),
        },
        AExpr::Binary(l, _, r) => indices_var_free(*l, name) && indices_var_free(*r, name),
        AExpr::Minus(y) => indices_var_free(*y, name),
        AExpr::Function(f) => match f {
            Function::Division(a, b) | Function::Min(a, b) | Function::Max(a, b) => indices_var_free(*a, name)
                && indices_var_free(*b, name),
            Function::Count(_, i) | Function::LogicalCount(_, i) | Function::Fac(i) | Function::Fib(i) => indices_var_free(
                *i,
                name,
            ),
            Function::Length(_) | Function::LogicalLength(_) => true,
        },
    }
}

/// The context with the variable named `name` bound to `n`.
pub open spec fn bind_var(cx: ContextModel, name: Seq<char>, n: i64) -> ContextModel {
    ContextModel {
        variable: |w: Variable| if w.0@ == name {
            Ok::<i64, SemanticsError>(n)
        } else {
            (cx.variable)(w)
        },
        ..cx
    }
}

/// An expression free of a variable has the same value whatever that
/// variable is bound to.
pub proof fn lemma_var_free_value(e: AExpr, cx: ContextModel, name: Seq<char>, n: i64)
    requires
        var_free(e, name),
    ensures
        aexpr_sem(e, bind_var(cx, name, n)) == aexpr_sem(e, cx),
    decreases e,
{
    match e {
        AExpr::Number(_) => {},
        AExpr::Reference(t) => match t {
            Target::Variable(w) => {},
            Target::Array(_, idx) => lemma_var_free_value(*idx, cx, name, n),
        },
        AExpr::Binary(l, _, r) => {
            lemma_var_free_value(*l, cx, name, n);
            lemma_var_free_value(*r, cx, name, n);
        },
        AExpr::Minus(y) => lemma_var_free_value(*y, cx, name, n),
        AExpr::Function(f) => match f {
            Function::Division(a, b) | Function::Min(a, b) | Function::Max(a, b) => {
                lemma_var_free_value(*a, cx, name, n);
                lemma_var_free_value(*b, cx, name, n);
            },
            Function::Count(_, i) | Function::LogicalCount(_, i) | Function::Fac(i) | Function::Fib(i) => {
                lemma_var_free_value(*i, cx, name, n);
            },
            Function::Length(_) | Function::LogicalLength(_) => {},
        },
    }
}

/// Substituting `x` for a variable is evaluating with the variable bound to
/// the value of `x`, where no array index mentions the variable.
pub proof fn lemma_subst_value(e: AExpr, name: Seq<char>, x: AExpr, cx: ContextModel, n: i64)
    requires
        aexpr_sem(x, cx) == Some(Ok::<i64, SemanticsError>(n)),
        indices_var_free(e, name),
    ensures
        aexpr_sem(aexpr_subst(e, (false, name), x), cx) == aexpr_sem(e, bind_var(cx, name, n)),
    decreases e,
{
    let k = (false, name);
    match e {
        AExpr::Number(_) => {},
        AExpr::Reference(t) => match t {
            Target::Variable(w) => {},
            Target::Array(_, idx) => lemma_var_free_value(*idx, cx, name, n),
        },
        AExpr::Binary(l, _, r) => {
            lemma_subst_value(*l, name, x, cx, n);
            lemma_subst_value(*r, name, x, cx, n);
        },
        AExpr::Minus(y) => lemma_subst_value(*y, name, x, cx, n),
        AExpr::Function(f) => match f {
            Function::Division(a, b) | Function::Min(a, b) | Function::Max(a, b) => {
                lemma_subst_value(*a, name, x, cx, n);
                lemma_subst_value(*b, name, x, cx, n);
            },
            Function::Count(_, i) | Function::LogicalCount(_, i) | Function::Fac(i) | Function::Fib(i) => {
                lemma_subst_value(*i, name, x, cx, n);
            },
            Function::Length(_) | Function::LogicalLength(_) => {},
        },
    }
}

} // verus!
