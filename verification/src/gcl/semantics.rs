//! Semantics of arithmetic and boolean expressions over a context that
//! gives the values of variables and arrays.
use vstd::prelude::*;
use vstd::arithmetic::power::pow;

use super::ast::{AExpr, AOp, Array, BExpr, Function, Int, LogicOp, RelOp, Target, Variable};

verus! {

/// Why an expression has no value.
pub enum SemanticsError {
    DivisionByZero,
    NegativeExponent,
    VariableNotFound { name: String },
    ArrayNotFound { name: String },
    IndexOutOfBound { name: String, index: Int },
    NoProgression,
    ArithmeticOverflow,
    EvaluateQuantifier,
    OutsideFunctionDomain,
}

/// What a context says of names: the value of each variable, each element
/// of each array, each array's length and the number of times an array holds
/// a value.
pub struct ContextModel {
    pub variable: spec_fn(Variable) -> Result<Int, SemanticsError>,
    pub array_element: spec_fn(Array, Int) -> Result<Int, SemanticsError>,
    pub array_length: spec_fn(Array) -> Result<Int, SemanticsError>,
    pub array_count: spec_fn(Array, Int) -> Result<Int, SemanticsError>,
}

/// Gives the values of variables and arrays.
pub trait SemanticsContext {
    /// What the context says of names.
    spec fn model(&self) -> ContextModel;

    fn variable(&self, var: &Variable) -> (r: Result<Int, SemanticsError>)
        ensures
            r == (self.model().variable)(*var),
    ;

    fn array_element(&self, array: &Array, index: Int) -> (r: Result<Int, SemanticsError>)
        ensures
            r == (self.model().array_element)(*array, index),
    ;

    fn array_length(&self, array: &Array) -> (r: Result<Int, SemanticsError>)
        ensures
            r == (self.model().array_length)(*array),
    ;

    fn array_count(&self, array: &Array, element: Int) -> (r: Result<Int, SemanticsError>)
        ensures
            r == (self.model().array_count)(*array, element),
    ;
}

/// The context in which nothing is defined.
pub struct EmptySemanticsContext;

/// Nothing is defined: every variable and array is missing.
pub open spec fn empty_model() -> ContextModel {
    ContextModel {
        variable: |var: Variable| Err(SemanticsError::VariableNotFound { name: var.0 }),
        array_element: |array: Array, index: Int| Err(SemanticsError::ArrayNotFound { name: array.0 }),
        array_length: |array: Array| Err(SemanticsError::ArrayNotFound { name: array.0 }),
        array_count: |array: Array, element: Int| Err(SemanticsError::ArrayNotFound { name: array.0 }),
    }
}

impl SemanticsContext for EmptySemanticsContext {
    open spec fn model(&self) -> ContextModel {
        empty_model()
    }

    fn variable(&self, var: &Variable) -> (r: Result<Int, SemanticsError>) {
        Err(SemanticsError::VariableNotFound { name: var.0.clone() })
    }

    fn array_element(&self, array: &Array, index: Int) -> (r: Result<Int, SemanticsError>) {
        Err(SemanticsError::ArrayNotFound { name: array.0.clone() })
    }

    fn array_length(&self, array: &Array) -> (r: Result<Int, SemanticsError>) {
        Err(SemanticsError::ArrayNotFound { name: array.0.clone() })
    }

    fn array_count(&self, array: &Array, element: Int) -> (r: Result<Int, SemanticsError>) {
        Err(SemanticsError::ArrayNotFound { name: array.0.clone() })
    }
}

/// `n!`.
pub open spec fn factorial(n: nat) -> nat
    decreases n,
{
    if n == 0 {
        1
    } else {
        n * factorial((n - 1) as nat)
    }
}

/// The Fibonacci numbers: `fib(0) = 0`, `fib(1) = 1`.
pub open spec fn fib(n: nat) -> nat
    decreases n,
{
    if n == 0 {
        0
    } else if n == 1 {
        1
    } else {
        fib((n - 2) as nat) + fib((n - 1) as nat)
    }
}

pub open spec fn fits(v: int) -> bool {
    i64::MIN <= v <= i64::MAX
}

/// A value, an error, or `None` where evaluation panics (a division of the
/// least integer by -1).
pub type Outcome<T> = Option<Result<T, SemanticsError>>;

/// The result of a binary arithmetic operator.
pub open spec fn aop_sem(op: AOp, l: Int, r: Int) -> Outcome<Int> {
    match op {
        AOp::Plus => if fits(l + r) {
            Some(Ok((l + r) as i64))
        } else {
            Some(Err(SemanticsError::ArithmeticOverflow))
        },
        AOp::Minus => if fits(l - r) {
            Some(Ok((l - r) as i64))
        } else {
            Some(Err(SemanticsError::ArithmeticOverflow))
        },
        AOp::Times => if fits(l * r) {
            Some(Ok((l * r) as i64))
        } else {
            Some(Err(SemanticsError::ArithmeticOverflow))
        },
        AOp::Divide => if r == 0 {
            Some(Err(SemanticsError::DivisionByZero))
        } else {
            match l.checked_div(r) {
                Some(v) => Some(Ok(v)),
                None => None,
            }
        },
        AOp::Pow => if r >= 0 {
            if fits(pow(l as int, (r as u32) as nat)) {
                Some(Ok(pow(l as int, (r as u32) as nat) as i64))
            } else {
                Some(Err(SemanticsError::ArithmeticOverflow))
            }
        } else {
            Some(Err(SemanticsError::NegativeExponent))
        },
    }
}

/// `x!`, where it is defined and fits.
pub open spec fn fac_sem(x: Int) -> Result<Int, SemanticsError> {
    if x < 0 {
        Err(SemanticsError::OutsideFunctionDomain)
    } else if factorial(x as nat) <= i64::MAX {
        Ok(factorial(x as nat) as i64)
    } else {
        Err(SemanticsError::ArithmeticOverflow)
    }
}

/// `fib(x)`; computing it also computes `fib(x + 1)`, which must fit.
pub open spec fn fib_sem(x: Int) -> Result<Int, SemanticsError> {
    if x < 0 {
        Err(SemanticsError::OutsideFunctionDomain)
    } else if x == 0 {
        Ok(0)
    } else if fib((x + 1) as nat) <= i64::MAX {
        Ok(fib(x as nat) as i64)
    } else {
        Err(SemanticsError::ArithmeticOverflow)
    }
}

/// The value of an arithmetic expression in a context.
pub open spec fn aexpr_sem(e: AExpr, cx: ContextModel) -> Outcome<Int>
    decreases e,
{
    match e {
        AExpr::Number(n) => Some(Ok(n)),
        AExpr::Reference(t) => match t {
            Target::Variable(x) => Some((cx.variable)(x)),
            Target::Array(arr, idx) => match aexpr_sem(*idx, cx) {
                Some(Ok(i)) => Some((cx.array_element)(arr, i)),
                other => other,
            },
        },
        AExpr::Binary(l, op, r) => match aexpr_sem(*l, cx) {
            Some(Ok(a)) => match aexpr_sem(*r, cx) {
                Some(Ok(b)) => aop_sem(op, a, b),
                other => other,
            },
            other => other,
        },
        AExpr::Minus(x) => match aexpr_sem(*x, cx) {
            Some(Ok(v)) => if v == i64::MIN {
                Some(Err(SemanticsError::ArithmeticOverflow))
            } else {
                Some(Ok((-v) as i64))
            },
            other => other,
        },
        AExpr::Function(f) => match f {
            Function::Division(l, r) => match aexpr_sem(*l, cx) {
                Some(Ok(a)) => match aexpr_sem(*r, cx) {
                    Some(Ok(b)) => aop_sem(AOp::Divide, a, b),
                    other => other,
                },
                other => other,
            },
            Function::Min(l, r) => match aexpr_sem(*l, cx) {
                Some(Ok(a)) => match aexpr_sem(*r, cx) {
                    Some(Ok(b)) => Some(Ok(if a <= b { a } else { b })),
                    other => other,
                },
                other => other,
            },
            Function::Max(l, r) => match aexpr_sem(*l, cx) {
                Some(Ok(a)) => match aexpr_sem(*r, cx) {
                    Some(Ok(b)) => Some(Ok(if a >= b { a } else { b })),
                    other => other,
                },
                other => other,
            },
            Function::Count(arr, x) | Function::LogicalCount(arr, x) => match aexpr_sem(*x, cx) {
                Some(Ok(v)) => Some((cx.array_count)(arr, v)),
                other => other,
            },
            Function::Length(arr) | Function::LogicalLength(arr) => Some((cx.array_length)(arr)),
            Function::Fac(x) => match aexpr_sem(*x, cx) {
                Some(Ok(v)) => Some(fac_sem(v)),
                other => other,
            },
            Function::Fib(x) => match aexpr_sem(*x, cx) {
                Some(Ok(v)) => Some(fib_sem(v)),
                other => other,
            },
        },
    }
}

/// The truth of a relation.
pub open spec fn relop_sem(op: RelOp, l: Int, r: Int) -> bool {
    match op {
        RelOp::Eq => l == r,
        RelOp::Ne => l != r,
        RelOp::Gt => l > r,
        RelOp::Ge => l >= r,
        RelOp::Lt => l < r,
        RelOp::Le => l <= r,
    }
}

/// Each relational operator decides its own relation on integers: `==`,
/// `!=`, `>`, `>=`, `<` and `<=`.
pub proof fn lemma_relop_meaning(l: Int, r: Int)
    ensures
        relop_sem(RelOp::Eq, l, r) <==> l == r,
        relop_sem(RelOp::Ne, l, r) <==> l != r,
        relop_sem(RelOp::Gt, l, r) <==> l > r,
        relop_sem(RelOp::Ge, l, r) <==> l >= r,
        relop_sem(RelOp::Lt, l, r) <==> l < r,
        relop_sem(RelOp::Le, l, r) <==> l <= r,
{
}

/// The value of `l op r` once `r` has been evaluated to `r`.
pub open spec fn logic_sem(op: LogicOp, l: bool, r: bool) -> bool {
    match op {
        LogicOp::And | LogicOp::Land => l && r,
        LogicOp::Or | LogicOp::Lor => l || r,
        LogicOp::Implies => !l || r,
    }
}

/// The operator decides without its right operand: `false && _`, `true || _`.
pub open spec fn short_circuits(op: LogicOp, l: bool) -> bool {
    (op == LogicOp::And && !l) || (op == LogicOp::Or && l)
}

/// The truth of a boolean expression in a context.
pub open spec fn bexpr_sem(b: BExpr, cx: ContextModel) -> Outcome<bool>
    decreases b,
{
    match b {
        BExpr::Bool(v) => Some(Ok(v)),
        BExpr::Rel(l, op, r) => match aexpr_sem(l, cx) {
            Some(Ok(a)) => match aexpr_sem(r, cx) {
                Some(Ok(c)) => Some(Ok(relop_sem(op, a, c))),
                Some(Err(e)) => Some(Err(e)),
                None => None,
            },
            Some(Err(e)) => Some(Err(e)),
            None => None,
        },
        BExpr::Logic(l, op, r) => match bexpr_sem(*l, cx) {
            Some(Ok(a)) => if short_circuits(op, a) {
                Some(Ok(a))
            } else {
                match bexpr_sem(*r, cx) {
                    Some(Ok(c)) => Some(Ok(logic_sem(op, a, c))),
                    other => other,
                }
            },
            other => other,
        },
        BExpr::Not(x) => match bexpr_sem(*x, cx) {
            Some(Ok(v)) => Some(Ok(!v)),
            other => other,
        },
        BExpr::Quantified(_, _, _) => Some(Err(SemanticsError::EvaluateQuantifier)),
    }
}

/// `l` to the power `e`, or `None` where the result does not fit.
#[verifier::external_body]
fn checked_pow_i64(l: i64, e: u32) -> (r: Option<i64>)
    ensures
        r == (if fits(pow(l as int, e as nat)) {
            Some(pow(l as int, e as nat) as i64)
        } else {
            None::<i64>
        }),
{
    l.checked_pow(e)
}

proof fn lemma_factorial_mono(i: nat, j: nat)
    requires
        i <= j,
    ensures
        factorial(i) <= factorial(j),
        factorial(i) >= 1,
    decreases j,
{
    if i < j {
        lemma_factorial_mono(i, (j - 1) as nat);
        assert(factorial(j) == j * factorial((j - 1) as nat));
        assert(j * factorial((j - 1) as nat) >= factorial((j - 1) as nat)) by (nonlinear_arith)
            requires
                j >= 1,
                factorial((j - 1) as nat) >= 1,
        ;
    } else if j > 0 {
        lemma_factorial_mono((j - 1) as nat, (j - 1) as nat);
        assert(j * factorial((j - 1) as nat) >= 1) by (nonlinear_arith)
            requires
                j >= 1,
                factorial((j - 1) as nat) >= 1,
        ;
    }
}

proof fn lemma_fib_mono(i: nat, j: nat)
    requires
        1 <= i <= j,
    ensures
        fib(i) <= fib(j),
        fib(i) >= 1,
    decreases j,
{
    reveal_with_fuel(fib, 2);
    if j > 1 {
        lemma_fib_mono(1, (j - 1) as nat);
        if i < j {
            lemma_fib_mono(i, (j - 1) as nat);
        }
    }
}

impl AOp {
    /// Applies the operator, with checked arithmetic.
    pub fn semantic(&self, l: Int, r: Int) -> (res: Result<Int, SemanticsError>)
        requires
            aop_sem(*self, l, r) is Some,
        ensures
            Some(res) == aop_sem(*self, l, r),
    {
        match self {
            AOp::Plus => match l.checked_add(r) {
                Some(v) => Ok(v),
                None => Err(SemanticsError::ArithmeticOverflow),
            },
            AOp::Minus => match l.checked_sub(r) {
                Some(v) => Ok(v),
                None => Err(SemanticsError::ArithmeticOverflow),
            },
            AOp::Times => match l.checked_mul(r) {
                Some(v) => Ok(v),
                None => Err(SemanticsError::ArithmeticOverflow),
            },
            AOp::Divide => {
                if r != 0 {
                    match l.checked_div(r) {
                        Some(v) => Ok(v),
                        None => Err(SemanticsError::ArithmeticOverflow),
                    }
                } else {
                    Err(SemanticsError::DivisionByZero)
                }
            },
            AOp::Pow => {
                if r >= 0 {
                    match checked_pow_i64(l, r as u32) {
                        Some(v) => Ok(v),
                        None => Err(SemanticsError::ArithmeticOverflow),
                    }
                } else {
                    Err(SemanticsError::NegativeExponent)
                }
            },
        }
    }
}

impl RelOp {
    /// Decides the relation.
    pub fn semantic(&self, l: Int, r: Int) -> (res: bool)
        ensures
            res == relop_sem(*self, l, r),
            *self == RelOp::Eq ==> (res <==> l == r),
            *self == RelOp::Ne ==> (res <==> l != r),
            *self == RelOp::Gt ==> (res <==> l > r),
            *self == RelOp::Ge ==> (res <==> l >= r),
            *self == RelOp::Lt ==> (res <==> l < r),
            *self == RelOp::Le ==> (res <==> l <= r),
    {
        match self {
            RelOp::Eq => l == r,
            RelOp::Ne => l != r,
            RelOp::Gt => l > r,
            RelOp::Ge => l >= r,
            RelOp::Lt => l < r,
            RelOp::Le => l <= r,
        }
    }
}

impl LogicOp {
    /// Combines `l` with the right operand, which `r` evaluates; `&&` and
    /// `||` call `r` only where `l` does not decide.
    pub fn semantic<F: FnOnce() -> Result<bool, SemanticsError>>(&self, l: bool, r: F) -> (res: Result<bool, SemanticsError>)
        requires
            !short_circuits(*self, l) ==> call_requires(r, ()),
        ensures
            short_circuits(*self, l) ==> res == Ok::<bool, SemanticsError>(l),
            !short_circuits(*self, l) ==> exists|rv: Result<bool, SemanticsError>| #[trigger] call_ensures(r, (), rv) && res == match rv {
                Ok(c) => Ok::<bool, SemanticsError>(logic_sem(*self, l, c)),
                Err(e) => Err(e),
            },
    {
        match self {
            LogicOp::And => {
                if !l {
                    return Ok(false);
                }
                match r() {
                    Ok(c) => Ok(l && c),
                    Err(e) => Err(e),
                }
            },
            LogicOp::Or => {
                if l {
                    return Ok(true);
                }
                match r() {
                    Ok(c) => Ok(l || c),
                    Err(e) => Err(e),
                }
            },
            LogicOp::Land => match r() {
                Ok(c) => Ok(l && c),
                Err(e) => Err(e),
            },
            LogicOp::Lor => match r() {
                Ok(c) => Ok(l || c),
                Err(e) => Err(e),
            },
            LogicOp::Implies => match r() {
                Ok(c) => Ok(!l || c),
                Err(e) => Err(e),
            },
        }
    }
}


fn fac_exec(x: Int) -> (r: Result<Int, SemanticsError>)
    ensures
        r == fac_sem(x),
{
    if x < 0 {
        return Err(SemanticsError::OutsideFunctionDomain);
    }
    let mut acc: i64 = 1;
    let mut i: i64 = 0;
    while i < x
        invariant
            0 <= i <= x,
            acc == factorial(i as nat),
        decreases x - i,
    {
        match acc.checked_mul(i + 1) {
            Some(v) => {
                proof {
                    assert(factorial((i + 1) as nat) == (i + 1) * factorial(i as nat));
                }
                acc = v;
            },
            None => {
                proof {
                    assert(factorial((i + 1) as nat) == (i + 1) * factorial(i as nat));
                    lemma_factorial_mono((i + 1) as nat, x as nat);
                }
                return Err(SemanticsError::ArithmeticOverflow);
            },
        }
        i = i + 1;
    }
    Ok(acc)
}

fn fib_exec(x: Int) -> (r: Result<Int, SemanticsError>)
    ensures
        r == fib_sem(x),
{
    if x < 0 {
        return Err(SemanticsError::OutsideFunctionDomain);
    }
    let mut a: i64 = 0;
    let mut b: i64 = 1;
    let mut j: i64 = 0;
    while j < x
        invariant
            0 <= j <= x,
            a == fib(j as nat),
            b == fib((j + 1) as nat),
        decreases x - j,
    {
        proof {
            reveal_with_fuel(fib, 2);
            assert(fib((j + 2) as nat) == fib(j as nat) + fib((j + 1) as nat));
        }
        match a.checked_add(b) {
            Some(c) => {
                a = b;
                b = c;
            },
            None => {
                proof {
                    lemma_fib_mono((j + 2) as nat, (x + 1) as nat);
                }
                return Err(SemanticsError::ArithmeticOverflow);
            },
        }
        j = j + 1;
    }
    if x == 0 {
        return Ok(0);
    }
    Ok(a)
}

impl AExpr {
    /// The value of the expression in the context `cx`.
    pub fn semantics<S: SemanticsContext>(&self, cx: &S) -> (r: Result<Int, SemanticsError>)
        requires
            aexpr_sem(*self, cx.model()) is Some,
        ensures
            Some(r) == aexpr_sem(*self, cx.model()),
        decreases *self,
    {
        match self {
            AExpr::Number(n) => Ok(*n),
            AExpr::Reference(t) => match t {
                Target::Variable(x) => cx.variable(x),
                Target::Array(arr, idx) => {
                    let i = idx.semantics(cx)?;
                    cx.array_element(arr, i)
                },
            },
            AExpr::Binary(l, op, r) => {
                let a = l.semantics(cx)?;
                let b = r.semantics(cx)?;
                op.semantic(a, b)
            },
            AExpr::Minus(x) => {
                let v = x.semantics(cx)?;
                if v == i64::MIN {
                    Err(SemanticsError::ArithmeticOverflow)
                } else {
                    Ok(-v)
                }
            },
            AExpr::Function(f) => match f {
                Function::Division(l, r) => {
                    let a = l.semantics(cx)?;
                    let b = r.semantics(cx)?;
                    AOp::Divide.semantic(a, b)
                },
                Function::Min(l, r) => {
                    let a = l.semantics(cx)?;
                    let b = r.semantics(cx)?;
                    Ok(if a <= b { a } else { b })
                },
                Function::Max(l, r) => {
                    let a = l.semantics(cx)?;
                    let b = r.semantics(cx)?;
                    Ok(if a >= b { a } else { b })
                },
                Function::Count(arr, x) | Function::LogicalCount(arr, x) => {
                    let v = x.semantics(cx)?;
                    cx.array_count(arr, v)
                },
                Function::Length(arr) | Function::LogicalLength(arr) => cx.array_length(arr),
                Function::Fac(x) => {
                    let v = x.semantics(cx)?;
                    fac_exec(v)
                },
                Function::Fib(x) => {
                    let v = x.semantics(cx)?;
                    fib_exec(v)
                },
            },
        }
    }
}

impl BExpr {
    /// The truth of the expression in the context `cx`.
    pub fn semantics<S: SemanticsContext>(&self, cx: &S) -> (r: Result<bool, SemanticsError>)
        requires
            bexpr_sem(*self, cx.model()) is Some,
        ensures
            Some(r) == bexpr_sem(*self, cx.model()),
        decreases *self,
    {
        match self {
            BExpr::Bool(b) => Ok(*b),
            BExpr::Rel(l, op, r) => {
                let a = l.semantics(cx)?;
                let c = r.semantics(cx)?;
                Ok(op.semantic(a, c))
            },
            BExpr::Logic(l, op, r) => {
                let a = l.semantics(cx)?;
                match op {
                    LogicOp::And => {
                        if !a {
                            return Ok(false);
                        }
                        let c = r.semantics(cx)?;
                        Ok(a && c)
                    },
                    LogicOp::Or => {
                        if a {
                            return Ok(true);
                        }
                        let c = r.semantics(cx)?;
                        Ok(a || c)
                    },
                    LogicOp::Land => {
                        let c = r.semantics(cx)?;
                        Ok(a && c)
                    },
                    LogicOp::Lor => {
                        let c = r.semantics(cx)?;
                        Ok(a || c)
                    },
                    LogicOp::Implies => {
                        let c = r.semantics(cx)?;
                        Ok(!a || c)
                    },
                }
            },
            BExpr::Not(b) => {
                let v = b.semantics(cx)?;
                Ok(!v)
            },
            BExpr::Quantified(_, _, _) => Err(SemanticsError::EvaluateQuantifier),
        }
    }
}

/// A relation between two expressions with values `a` and `c` evaluates to
/// whether `a` and `c` stand in that relation.
pub proof fn lemma_rel_truth(l: AExpr, op: RelOp, r: AExpr, cx: ContextModel, a: Int, c: Int)
    requires
        aexpr_sem(l, cx) == Some(Ok::<Int, SemanticsError>(a)),
        aexpr_sem(r, cx) == Some(Ok::<Int, SemanticsError>(c)),
    ensures
        op == RelOp::Eq ==> bexpr_sem(BExpr::Rel(l, op, r), cx) == Some(Ok::<bool, SemanticsError>(a == c)),
        op == RelOp::Ne ==> bexpr_sem(BExpr::Rel(l, op, r), cx) == Some(Ok::<bool, SemanticsError>(a != c)),
        op == RelOp::Gt ==> bexpr_sem(BExpr::Rel(l, op, r), cx) == Some(Ok::<bool, SemanticsError>(a > c)),
        op == RelOp::Ge ==> bexpr_sem(BExpr::Rel(l, op, r), cx) == Some(Ok::<bool, SemanticsError>(a >= c)),
        op == RelOp::Lt ==> bexpr_sem(BExpr::Rel(l, op, r), cx) == Some(Ok::<bool, SemanticsError>(a < c)),
        op == RelOp::Le ==> bexpr_sem(BExpr::Rel(l, op, r), cx) == Some(Ok::<bool, SemanticsError>(a <= c)),
{
}

/// Addition, subtraction and multiplication give the mathematical result
/// where it fits in an `i64` and an overflow error where it does not; a
/// power with an exponent that fits in a `u32` likewise (the exponent is
/// taken as a `u32`), and a negative exponent is an error; division by zero
/// is an error.
pub proof fn lemma_aop_meaning(l: Int, r: Int)
    ensures
        fits(l + r) ==> aop_sem(AOp::Plus, l, r) == Some(Ok::<Int, SemanticsError>((l + r) as Int)),
        !fits(l + r) ==> aop_sem(AOp::Plus, l, r) == Some(Err::<Int, SemanticsError>(SemanticsError::ArithmeticOverflow)),
        fits(l - r) ==> aop_sem(AOp::Minus, l, r) == Some(Ok::<Int, SemanticsError>((l - r) as Int)),
        !fits(l - r) ==> aop_sem(AOp::Minus, l, r) == Some(Err::<Int, SemanticsError>(SemanticsError::ArithmeticOverflow)),
        fits(l * r) ==> aop_sem(AOp::Times, l, r) == Some(Ok::<Int, SemanticsError>((l * r) as Int)),
        !fits(l * r) ==> aop_sem(AOp::Times, l, r) == Some(Err::<Int, SemanticsError>(SemanticsError::ArithmeticOverflow)),
        r == 0 ==> aop_sem(AOp::Divide, l, r) == Some(Err::<Int, SemanticsError>(SemanticsError::DivisionByZero)),
        r < 0 ==> aop_sem(AOp::Pow, l, r) == Some(Err::<Int, SemanticsError>(SemanticsError::NegativeExponent)),
        0 <= r <= u32::MAX && fits(pow(l as int, r as nat)) ==> aop_sem(AOp::Pow, l, r) == Some(
            Ok::<Int, SemanticsError>(pow(l as int, r as nat) as Int),
        ),
        0 <= r <= u32::MAX && !fits(pow(l as int, r as nat)) ==> aop_sem(AOp::Pow, l, r) == Some(
            Err::<Int, SemanticsError>(SemanticsError::ArithmeticOverflow),
        ),
{
    if 0 <= r <= u32::MAX {
        assert((r as u32) as nat == r as nat);
    }
}

/// The logical operators: `&&` and `&` are conjunction, `||` and `|`
/// disjunction, `==>` implication; only `&&` (on false) and `||` (on true)
/// decide without their right operand.
pub proof fn lemma_logic_meaning(l: bool, r: bool)
    ensures
        logic_sem(LogicOp::And, l, r) == (l && r),
        logic_sem(LogicOp::Land, l, r) == (l && r),
        logic_sem(LogicOp::Or, l, r) == (l || r),
        logic_sem(LogicOp::Lor, l, r) == (l || r),
        logic_sem(LogicOp::Implies, l, r) == (l ==> r),
        short_circuits(LogicOp::And, l) == !l,
        short_circuits(LogicOp::Or, l) == l,
        !short_circuits(LogicOp::Land, l),
        !short_circuits(LogicOp::Lor, l),
        !short_circuits(LogicOp::Implies, l),
{
}

/// A negation is true exactly where its operand is false.
pub proof fn lemma_not_truth(x: BExpr, cx: ContextModel, v: bool)
    requires
        bexpr_sem(x, cx) == Some(Ok::<bool, SemanticsError>(v)),
    ensures
        bexpr_sem(BExpr::Not(Box::new(x)), cx) == Some(Ok::<bool, SemanticsError>(!v)),
{
}

} // verus!
