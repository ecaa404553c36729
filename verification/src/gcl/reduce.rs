//! Normalisation of sums: an arithmetic expression is rewritten as its
//! constant part, plus its variables, plus its products, quotients, powers
//! and function applications.
use vstd::prelude::*;

use super::ast::{aexpr_size, AExpr, AOp, BExpr, Function, Target};
use super::semantics::{aexpr_sem, fits, ContextModel, Outcome, SemanticsError};

verus! {

/// The sum of the integer constants that are added or subtracted at the top
/// of `e` (through `+`, binary `-` and unary `-`).
pub open spec fn p_m_ints(e: AExpr) -> int
    decreases e,
{
    match e {
        AExpr::Number(n) => n as int,
        AExpr::Binary(l, op, r) => match op {
            AOp::Plus => p_m_ints(*l) + p_m_ints(*r),
            AOp::Minus => p_m_ints(*l) - p_m_ints(*r),
            _ => 0,
        },
        AExpr::Minus(x) => -p_m_ints(*x),
        _ => 0,
    }
}

/// Every partial sum of `p_m_ints(e)` fits in an `i64`.
pub open spec fn p_m_ints_fit(e: AExpr) -> bool
    decreases e,
{
    match e {
        AExpr::Binary(l, op, r) => match op {
            AOp::Plus | AOp::Minus => p_m_ints_fit(*l) && p_m_ints_fit(*r) && fits(p_m_ints(e)),
            _ => true,
        },
        AExpr::Minus(x) => p_m_ints_fit(*x) && fits(p_m_ints(e)),
        _ => true,
    }
}

/// Each expression of `s` under a unary minus.
pub open spec fn negate_all(s: Seq<AExpr>) -> Seq<AExpr> {
    s.map_values(|x: AExpr| AExpr::Minus(Box::new(x)))
}

/// The references added or subtracted at the top of `e`, each under one unary
/// minus per subtraction or negation above it.
pub open spec fn p_m_vars(e: AExpr) -> Seq<AExpr>
    decreases e,
{
    match e {
        AExpr::Reference(x) => seq![AExpr::Reference(x)],
        AExpr::Binary(l, op, r) => match op {
            AOp::Plus => p_m_vars(*l) + p_m_vars(*r),
            AOp::Minus => p_m_vars(*l) + negate_all(p_m_vars(*r)),
            _ => Seq::empty(),
        },
        AExpr::Minus(x) => negate_all(p_m_vars(*x)),
        _ => Seq::empty(),
    }
}

/// All the references in `e`, left to right; the index of an array
/// reference is not looked into.
pub open spec fn aexpr_vars(e: AExpr) -> Seq<Target<Box<AExpr>>>
    decreases e,
{
    match e {
        AExpr::Number(_) => Seq::empty(),
        AExpr::Reference(v) => seq![v],
        AExpr::Binary(l, _, r) => aexpr_vars(*l) + aexpr_vars(*r),
        AExpr::Minus(x) => aexpr_vars(*x),
        AExpr::Function(f) => match f {
            Function::Division(a, b) | Function::Min(a, b) | Function::Max(a, b) => aexpr_vars(*a)
                + aexpr_vars(*b),
            Function::Count(_, x) | Function::LogicalCount(_, x) | Function::Fac(x) | Function::Fib(
                x,
            ) => aexpr_vars(*x),
            Function::Length(_) | Function::LogicalLength(_) => Seq::empty(),
        },
    }
}

/// `base + s[0] + s[1] + ...`, grouped to the left.
pub open spec fn fold_plus(base: AExpr, s: Seq<AExpr>) -> AExpr
    decreases s.len(),
{
    if s.len() == 0 {
        base
    } else {
        AExpr::Binary(Box::new(fold_plus(base, s.drop_last())), AOp::Plus, Box::new(s.last()))
    }
}

/// The products, quotients, powers and function applications added or
/// subtracted at the top of `e` (each with its operands normalised), under a
/// unary minus per subtraction or negation above it.
pub open spec fn mul_div_pow_exprs(e: AExpr) -> Seq<AExpr>
    decreases aexpr_size(e), 0int,
{
    match e {
        AExpr::Binary(l, op, r) => match op {
            AOp::Plus => mul_div_pow_exprs(*l) + mul_div_pow_exprs(*r),
            AOp::Minus => mul_div_pow_exprs(*l) + negate_all(mul_div_pow_exprs(*r)),
            _ => seq![AExpr::Binary(Box::new(aexpr_reduce(*l)), op, Box::new(aexpr_reduce(*r)))],
        },
        AExpr::Minus(x) => negate_all(mul_div_pow_exprs(*x)),
        AExpr::Function(_) => seq![e],
        _ => Seq::empty(),
    }
}

/// The normal form of `e`: its constant part, plus its variables (the last
/// first), plus its other terms.
pub open spec fn aexpr_reduce(e: AExpr) -> AExpr
    decreases aexpr_size(e), 1int,
{
    let n = AExpr::Number(p_m_ints(e) as i64);
    let vars = p_m_vars(e);
    let with_vars = if vars.len() == 0 {
        n
    } else {
        fold_plus(AExpr::Binary(Box::new(n), AOp::Plus, Box::new(vars.last())), vars.drop_last())
    };
    fold_plus(with_vars, mul_div_pow_exprs(e))
}

/// Normalising `e` does not overflow: the constant parts of `e` and of every
/// operand of a product, quotient or power that it normalises fit.
pub open spec fn aexpr_reducible(e: AExpr) -> bool
    decreases e,
{
    p_m_ints_fit(e) && match e {
        AExpr::Binary(l, _, r) => aexpr_reducible(*l) && aexpr_reducible(*r),
        AExpr::Minus(x) => aexpr_reducible(*x),
        _ => true,
    }
}

/// The boolean expression with both sides of each relation normalised.
pub open spec fn bexpr_reduce(b: BExpr) -> BExpr
    decreases b,
{
    match b {
        BExpr::Bool(v) => BExpr::Bool(v),
        BExpr::Rel(l, op, r) => BExpr::Rel(aexpr_reduce(l), op, aexpr_reduce(r)),
        BExpr::Logic(l, op, r) => BExpr::Logic(Box::new(bexpr_reduce(*l)), op, Box::new(bexpr_reduce(*r))),
        BExpr::Not(x) => BExpr::Not(Box::new(bexpr_reduce(*x))),
        BExpr::Quantified(_, _, _) => b,
    }
}

/// Normalising `b` does not overflow, and `b` holds no quantifier.
pub open spec fn bexpr_reducible(b: BExpr) -> bool
    decreases b,
{
    match b {
        BExpr::Bool(_) => true,
        BExpr::Rel(l, _, r) => aexpr_reducible(l) && aexpr_reducible(r),
        BExpr::Logic(l, _, r) => bexpr_reducible(*l) && bexpr_reducible(*r),
        BExpr::Not(x) => bexpr_reducible(*x),
        BExpr::Quantified(_, _, _) => false,
    }
}

fn negate_each(v: Vec<AExpr>) -> (r: Vec<AExpr>)
    ensures
        r@ == negate_all(v@),
{
    let mut r: Vec<AExpr> = Vec::new();
    let mut i: usize = 0;
    while i < v.len()
        invariant
            i <= v@.len(),
            r@ == negate_all(v@.take(i as int)),
        decreases v@.len() - i,
    {
        r.push(AExpr::Minus(Box::new(v[i].clone())));
        proof {
            assert(negate_all(v@.take(i + 1)) =~= negate_all(v@.take(i as int)).push(
                AExpr::Minus(Box::new(v@[i as int])),
            ));
        }
        i = i + 1;
    }
    assert(v@.take(i as int) =~= v@);
    r
}

fn add_all(base: AExpr, s: &Vec<AExpr>) -> (r: AExpr)
    ensures
        r == fold_plus(base, s@),
{
    let mut ae = base;
    let mut i: usize = 0;
    while i < s.len()
        invariant
            i <= s@.len(),
            ae == fold_plus(base, s@.take(i as int)),
        decreases s@.len() - i,
    {
        ae = AExpr::binary(ae, AOp::Plus, s[i].clone());
        proof {
            assert(s@.take(i + 1).drop_last() =~= s@.take(i as int));
        }
        i = i + 1;
    }
    assert(s@.take(i as int) =~= s@);
    ae
}

impl AExpr {
    /// The normal form of the expression: its constant part, plus its
    /// variables, plus its other terms.
    pub fn reduce(&self) -> (r: AExpr)
        requires
            aexpr_reducible(*self),
        ensures
            r == aexpr_reduce(*self),
        decreases aexpr_size(*self), 1int,
    {
        let n = AExpr::Number(self.find_p_m_ints());
        let mut vars = self.find_p_m_var();
        let mul_div_pow_exprs = self.find_mul_div_pow_expr();
        let ghost all_vars = vars@;
        let ae = if vars.len() == 0 {
            n
        } else {
            let last = vars.pop().unwrap();
            assert(vars@ =~= all_vars.drop_last());
            add_all(AExpr::binary(n, AOp::Plus, last), &vars)
        };
        add_all(ae, &mul_div_pow_exprs)
    }

    /// The sum of the integer constants added or subtracted at the top of the
    /// expression.
    pub fn find_p_m_ints(&self) -> (r: i64)
        requires
            p_m_ints_fit(*self),
        ensures
            r == p_m_ints(*self),
        decreases *self,
    {
        match self {
            AExpr::Number(n) => *n,
            AExpr::Reference(_) => 0,
            AExpr::Binary(l, op, r) => match op {
                AOp::Plus => l.find_p_m_ints() + r.find_p_m_ints(),
                AOp::Minus => l.find_p_m_ints() - r.find_p_m_ints(),
                AOp::Divide => 0,
                AOp::Times => 0,
                AOp::Pow => 0,
            },
            AExpr::Minus(e) => -e.find_p_m_ints(),
            AExpr::Function(_) => 0,
        }
    }

    /// All the references in the expression, left to right.
    pub fn find_vars(&self) -> (r: Vec<Target<Box<AExpr>>>)
        ensures
            r@ == aexpr_vars(*self),
        decreases *self,
    {
        match self {
            AExpr::Number(_) => Vec::new(),
            AExpr::Reference(v) => {
                let mut r = Vec::new();
                r.push(v.copy_indexed());
                r
            },
            AExpr::Binary(l, _, r) => {
                let mut var_vec = Vec::new();
                var_vec.append(&mut l.find_vars());
                var_vec.append(&mut r.find_vars());
                var_vec
            },
            AExpr::Minus(e) => e.find_vars(),
            AExpr::Function(f) => match f {
                Function::Division(a, b) | Function::Min(a, b) | Function::Max(a, b) => {
                    let mut var_vec = a.find_vars();
                    var_vec.append(&mut b.find_vars());
                    var_vec
                },
                Function::Count(_, x) | Function::LogicalCount(_, x) | Function::Fac(x)
                | Function::Fib(x) => x.find_vars(),
                Function::Length(_) | Function::LogicalLength(_) => Vec::new(),
            },
        }
    }

    /// The products, quotients, powers and function applications added or
    /// subtracted at the top of the expression, their operands normalised.
    pub fn find_mul_div_pow_expr(&self) -> (r: Vec<AExpr>)
        requires
            aexpr_reducible(*self),
        ensures
            r@ == mul_div_pow_exprs(*self),
        decreases aexpr_size(*self), 0int,
    {
        let mut var_vec = Vec::new();
        match self {
            AExpr::Number(_) => Vec::new(),
            AExpr::Reference(_) => Vec::new(),
            AExpr::Binary(l, op, r) => match op {
                AOp::Plus => {
                    var_vec.append(&mut l.find_mul_div_pow_expr());
                    var_vec.append(&mut r.find_mul_div_pow_expr());
                    var_vec
                },
                AOp::Minus => {
                    var_vec.append(&mut l.find_mul_div_pow_expr());
                    let mut r_expr = negate_each(r.find_mul_div_pow_expr());
                    var_vec.append(&mut r_expr);
                    var_vec
                },
                _ => {
                    var_vec.push(AExpr::binary(l.reduce(), *op, r.reduce()));
                    var_vec
                },
            },
            AExpr::Minus(e) => negate_each(e.find_mul_div_pow_expr()),
            AExpr::Function(_) => {
                var_vec.push(self.clone());
                var_vec
            },
        }
    }

    /// The references added or subtracted at the top of the expression, each
    /// negated once per subtraction or negation above it.
    pub fn find_p_m_var(&self) -> (r: Vec<AExpr>)
        ensures
            r@ == p_m_vars(*self),
        decreases *self,
    {
        let mut var_vec = Vec::new();
        match self {
            AExpr::Number(_) => Vec::new(),
            AExpr::Reference(x) => {
                var_vec.push(AExpr::Reference(x.copy_indexed()));
                var_vec
            },
            AExpr::Binary(l, op, r) => match op {
                AOp::Plus => {
                    var_vec.append(&mut l.find_p_m_var());
                    var_vec.append(&mut r.find_p_m_var());
                    var_vec
                },
                AOp::Minus => {
                    var_vec.append(&mut l.find_p_m_var());
                    let mut r_var = negate_each(r.find_p_m_var());
                    var_vec.append(&mut r_var);
                    var_vec
                },
                AOp::Divide => Vec::new(),
                AOp::Times => Vec::new(),
                AOp::Pow => Vec::new(),
            },
            AExpr::Minus(e) => negate_each(e.find_p_m_var()),
            AExpr::Function(_) => Vec::new(),
        }
    }
}

impl BExpr {
    /// The expression with both sides of each relation normalised.
    pub fn reduce(&self) -> (r: BExpr)
        requires
            bexpr_reducible(*self),
        ensures
            r == bexpr_reduce(*self),
        decreases *self,
    {
        match self {
            BExpr::Bool(b) => BExpr::Bool(*b),
            BExpr::Rel(l, op, r) => BExpr::Rel(l.reduce(), *op, r.reduce()),
            BExpr::Logic(l, op, r) => BExpr::Logic(Box::new(l.reduce()), *op, Box::new(r.reduce())),
            BExpr::Not(e) => BExpr::Not(Box::new(e.reduce())),
            BExpr::Quantified(_, _, _) => self.clone(),
        }
    }
}

/// The outcome is the value `v` (which fits), or an overflow.
pub open spec fn value_or_overflow(o: Outcome<i64>, v: int) -> bool {
    ||| fits(v) && o == Some(Ok::<i64, SemanticsError>(v as i64))
    ||| o == Some(Err::<i64, SemanticsError>(SemanticsError::ArithmeticOverflow))
}

/// Each term evaluates to its value in `vals`, or overflows.
pub open spec fn terms_value(ts: Seq<AExpr>, vals: Seq<int>, cx: ContextModel) -> bool {
    &&& ts.len() == vals.len()
    &&& forall|i: int| 0 <= i < ts.len() ==> value_or_overflow(#[trigger] aexpr_sem(ts[i], cx), vals[i])
}

/// The value of an outcome that has one.
pub open spec fn outcome_value(o: Outcome<i64>) -> i64 {
    match o {
        Some(Ok(v)) => v,
        _ => 0,
    }
}

/// The sum of a sequence of integers.
pub open spec fn isum(s: Seq<int>) -> int
    decreases s.len(),
{
    if s.len() == 0 {
        0
    } else {
        isum(s.drop_last()) + s.last()
    }
}

proof fn lemma_isum_single(x: int)
    ensures
        isum(seq![x]) == x,
{
    assert(seq![x].drop_last() =~= Seq::<int>::empty());
    assert(isum(Seq::<int>::empty()) == 0);
}

proof fn lemma_isum_concat(a: Seq<int>, b: Seq<int>)
    ensures
        isum(a + b) == isum(a) + isum(b),
    decreases b.len(),
{
    if b.len() > 0 {
        assert((a + b).drop_last() =~= a + b.drop_last());
        lemma_isum_concat(a, b.drop_last());
    } else {
        assert(a + b =~= a);
    }
}

proof fn lemma_isum_neg(a: Seq<int>)
    ensures
        isum(a.map_values(|x: int| -x)) == -isum(a),
    decreases a.len(),
{
    if a.len() > 0 {
        assert(a.map_values(|x: int| -x).drop_last() =~= a.drop_last().map_values(|x: int| -x));
        lemma_isum_neg(a.drop_last());
    }
}

proof fn lemma_minus_value(t: AExpr, w: int, cx: ContextModel)
    requires
        value_or_overflow(aexpr_sem(t, cx), w),
    ensures
        value_or_overflow(aexpr_sem(AExpr::Minus(Box::new(t)), cx), -w),
{
}

proof fn lemma_negate_terms(ts: Seq<AExpr>, vals: Seq<int>, cx: ContextModel)
    requires
        terms_value(ts, vals, cx),
    ensures
        terms_value(negate_all(ts), vals.map_values(|x: int| -x), cx),
{
    assert forall|i: int| 0 <= i < ts.len() implies value_or_overflow(
        #[trigger] aexpr_sem(negate_all(ts)[i], cx),
        vals.map_values(|x: int| -x)[i],
    ) by {
        assert(value_or_overflow(aexpr_sem(ts[i], cx), vals[i]));
        lemma_minus_value(ts[i], vals[i], cx);
    }
}

proof fn lemma_concat_terms(a: Seq<AExpr>, av: Seq<int>, b: Seq<AExpr>, bv: Seq<int>, cx: ContextModel)
    requires
        terms_value(a, av, cx),
        terms_value(b, bv, cx),
    ensures
        terms_value(a + b, av + bv, cx),
{
    assert forall|i: int| 0 <= i < (a + b).len() implies value_or_overflow(#[trigger] aexpr_sem((a + b)[i], cx), (av + bv)[i]) by {
        if i < a.len() {
            assert(value_or_overflow(aexpr_sem(a[i], cx), av[i]));
        } else {
            assert(value_or_overflow(aexpr_sem(b[i - a.len()], cx), bv[i - a.len()]));
        }
    }
}

/// Adding up terms left to right gives their sum, or overflows.
proof fn lemma_fold_plus_value(base: AExpr, bv: int, s: Seq<AExpr>, vals: Seq<int>, cx: ContextModel)
    requires
        value_or_overflow(aexpr_sem(base, cx), bv),
        terms_value(s, vals, cx),
    ensures
        value_or_overflow(aexpr_sem(fold_plus(base, s), cx), bv + isum(vals)),
    decreases s.len(),
{
    if s.len() > 0 {
        assert(terms_value(s.drop_last(), vals.drop_last(), cx)) by {
            assert forall|i: int| 0 <= i < s.drop_last().len() implies value_or_overflow(
                #[trigger] aexpr_sem(s.drop_last()[i], cx),
                vals.drop_last()[i],
            ) by {
                assert(value_or_overflow(aexpr_sem(s[i], cx), vals[i]));
            }
        }
        lemma_fold_plus_value(base, bv, s.drop_last(), vals.drop_last(), cx);
        assert(value_or_overflow(aexpr_sem(s[s.len() - 1], cx), vals[s.len() - 1]));
    }
}

proof fn lemma_p_m_ints_fits(e: AExpr)
    requires
        p_m_ints_fit(e),
    ensures
        fits(p_m_ints(e)),
{
}

/// A value of `e` is its constant part, plus the values of its variable
/// terms, plus those of its other terms, each of which evaluates to its value
/// or overflows.
proof fn lemma_reduce_decompose(e: AExpr, cx: ContextModel, v: i64) -> (r: (Seq<int>, Seq<int>))
    requires
        aexpr_reducible(e),
        aexpr_sem(e, cx) == Some(Ok::<i64, SemanticsError>(v)),
    ensures
        terms_value(p_m_vars(e), r.0, cx),
        terms_value(mul_div_pow_exprs(e), r.1, cx),
        v == p_m_ints(e) + isum(r.0) + isum(r.1),
    decreases aexpr_size(e), 0int,
{
    match e {
        AExpr::Number(n) => (Seq::empty(), Seq::empty()),
        AExpr::Reference(x) => {
            let vv = seq![v as int];
            lemma_isum_single(v as int);
            (vv, Seq::empty())
        },
        AExpr::Binary(l, op, rr) => {
            let a = outcome_value(aexpr_sem(*l, cx));
            let b = outcome_value(aexpr_sem(*rr, cx));
            match op {
                AOp::Plus => {
                    let (lv, lm) = lemma_reduce_decompose(*l, cx, a);
                    let (rv, rm) = lemma_reduce_decompose(*rr, cx, b);
                    lemma_concat_terms(p_m_vars(*l), lv, p_m_vars(*rr), rv, cx);
                    lemma_concat_terms(mul_div_pow_exprs(*l), lm, mul_div_pow_exprs(*rr), rm, cx);
                    lemma_isum_concat(lv, rv);
                    lemma_isum_concat(lm, rm);
                    (lv + rv, lm + rm)
                },
                AOp::Minus => {
                    let (lv, lm) = lemma_reduce_decompose(*l, cx, a);
                    let (rv, rm) = lemma_reduce_decompose(*rr, cx, b);
                    lemma_negate_terms(p_m_vars(*rr), rv, cx);
                    lemma_negate_terms(mul_div_pow_exprs(*rr), rm, cx);
                    let nrv = rv.map_values(|x: int| -x);
                    let nrm = rm.map_values(|x: int| -x);
                    lemma_concat_terms(p_m_vars(*l), lv, negate_all(p_m_vars(*rr)), nrv, cx);
                    lemma_concat_terms(mul_div_pow_exprs(*l), lm, negate_all(mul_div_pow_exprs(*rr)), nrm, cx);
                    lemma_isum_concat(lv, nrv);
                    lemma_isum_concat(lm, nrm);
                    lemma_isum_neg(rv);
                    lemma_isum_neg(rm);
                    (lv + nrv, lm + nrm)
                },
                _ => {
                    let t = AExpr::Binary(Box::new(aexpr_reduce(*l)), op, Box::new(aexpr_reduce(*rr)));
                    lemma_reduce_value(*l, cx, a);
                    lemma_reduce_value(*rr, cx, b);
                    let vm = seq![v as int];
                    lemma_isum_single(v as int);
                    assert(mul_div_pow_exprs(e) == seq![t]);
                    assert(value_or_overflow(aexpr_sem(t, cx), v as int));
                    assert(terms_value(seq![t], vm, cx)) by {
                        assert forall|i: int| 0 <= i < 1 implies value_or_overflow(#[trigger] aexpr_sem(seq![t][i], cx), vm[i]) by {
                            assert(seq![t][i] == t);
                        }
                    }
                    (Seq::empty(), vm)
                },
            }
        },
        AExpr::Minus(x) => {
            let w = outcome_value(aexpr_sem(*x, cx));
            let (xv, xm) = lemma_reduce_decompose(*x, cx, w);
            lemma_negate_terms(p_m_vars(*x), xv, cx);
            lemma_negate_terms(mul_div_pow_exprs(*x), xm, cx);
            lemma_isum_neg(xv);
            lemma_isum_neg(xm);
            (xv.map_values(|y: int| -y), xm.map_values(|y: int| -y))
        },
        AExpr::Function(_) => {
            let vm = seq![v as int];
            lemma_isum_single(v as int);
            assert(terms_value(seq![e], vm, cx)) by {
                assert forall|i: int| 0 <= i < 1 implies value_or_overflow(#[trigger] aexpr_sem(seq![e][i], cx), vm[i]) by {
                    assert(seq![e][i] == e);
                }
            }
            (Seq::empty(), vm)
        },
    }
}

/// Normalising an expression keeps its value, or makes the evaluation
/// overflow: the regrouped sum adds up the same terms.
pub proof fn lemma_reduce_value(e: AExpr, cx: ContextModel, v: i64)
    requires
        aexpr_reducible(e),
        aexpr_sem(e, cx) == Some(Ok::<i64, SemanticsError>(v)),
    ensures
        aexpr_sem(aexpr_reduce(e), cx) == Some(Ok::<i64, SemanticsError>(v))
            || aexpr_sem(aexpr_reduce(e), cx) == Some(Err::<i64, SemanticsError>(SemanticsError::ArithmeticOverflow)),
    decreases aexpr_size(e), 1int,
{
    let (vv, vm) = lemma_reduce_decompose(e, cx, v);
    lemma_p_m_ints_fits(e);
    let p = p_m_ints(e);
    let n = AExpr::Number(p as i64);
    let vars = p_m_vars(e);
    assert(value_or_overflow(aexpr_sem(n, cx), p));
    let with_vars = if vars.len() == 0 {
        n
    } else {
        fold_plus(AExpr::Binary(Box::new(n), AOp::Plus, Box::new(vars.last())), vars.drop_last())
    };
    if vars.len() == 0 {
        assert(vv.len() == 0);
        assert(isum(vv) == 0);
    } else {
        let k = vars.len() - 1;
        assert(value_or_overflow(aexpr_sem(vars[k], cx), vv[k]));
        assert(value_or_overflow(aexpr_sem(AExpr::Binary(Box::new(n), AOp::Plus, Box::new(vars.last())), cx), p + vv.last()));
        assert(terms_value(vars.drop_last(), vv.drop_last(), cx)) by {
            assert forall|i: int| 0 <= i < vars.drop_last().len() implies value_or_overflow(
                #[trigger] aexpr_sem(vars.drop_last()[i], cx),
                vv.drop_last()[i],
            ) by {
                assert(value_or_overflow(aexpr_sem(vars[i], cx), vv[i]));
            }
        }
        lemma_fold_plus_value(AExpr::Binary(Box::new(n), AOp::Plus, Box::new(vars.last())), p + vv.last(), vars.drop_last(), vv.drop_last(), cx);
    }
    assert(value_or_overflow(aexpr_sem(with_vars, cx), p + isum(vv)));
    lemma_fold_plus_value(with_vars, p + isum(vv), mul_div_pow_exprs(e), vm, cx);
    assert(aexpr_reduce(e) == fold_plus(with_vars, mul_div_pow_exprs(e)));
}

} // verus!
