use vstd::prelude::*;

verus! {

pub type Int = i64;

/// A variable, by name.
pub struct Variable(pub String);

/// An array, by name.
pub struct Array(pub String);

/// Something that can be assigned to: a variable, or an array with an index
/// (`Idx` is `()` where no index is meant).
pub enum Target<Idx> {
    Variable(Variable),
    Array(Array, Idx),
}

/// Whether a target is a variable or an array.
#[derive(Clone, Copy, PartialEq, Eq, Structural)]
pub enum TargetKind {
    Variable,
    Array,
}

/// A target together with its kind.
pub struct TargetDef {
    pub name: Target<()>,
    pub kind: TargetKind,
}

/// A sequence of commands.
pub struct Commands(pub Vec<Command>);

/// A command.
pub enum Command {
    Assignment(Target<Box<AExpr>>, AExpr),
    Skip,
    If(Vec<Guard>),
    Loop(Vec<Guard>),
    EnrichedLoop(BExpr, Vec<Guard>),
    Annotated(BExpr, Commands, BExpr),
    Break,
    Continue,
}

/// A guarded command: `b -> C`.
pub struct Guard(pub BExpr, pub Commands);

/// Arithmetic expressions.
pub enum AExpr {
    Number(Int),
    Reference(Target<Box<AExpr>>),
    Binary(Box<AExpr>, AOp, Box<AExpr>),
    Minus(Box<AExpr>),
    Function(Function),
}

/// The built-in functions.
pub enum Function {
    Division(Box<AExpr>, Box<AExpr>),
    Min(Box<AExpr>, Box<AExpr>),
    Max(Box<AExpr>, Box<AExpr>),
    Count(Array, Box<AExpr>),
    LogicalCount(Array, Box<AExpr>),
    Length(Array),
    LogicalLength(Array),
    Fac(Box<AExpr>),
    Fib(Box<AExpr>),
}

/// Arithmetic operators.
#[derive(Clone, Copy, PartialEq, Eq, Structural)]
pub enum AOp {
    Plus,
    Minus,
    Times,
    Divide,
    Pow,
}

/// Boolean expressions.
pub enum BExpr {
    Bool(bool),
    Rel(AExpr, RelOp, AExpr),
    Logic(Box<BExpr>, LogicOp, Box<BExpr>),
    Not(Box<BExpr>),
    Quantified(Quantifier, Target<()>, Box<BExpr>),
}

/// Quantifiers.
#[derive(Clone, Copy, PartialEq, Eq, Structural)]
pub enum Quantifier {
    Exists,
    Forall,
}

/// Relational operators.
#[derive(Clone, Copy, PartialEq, Eq, Structural)]
pub enum RelOp {
    Eq,
    Ne,
    Gt,
    Ge,
    Lt,
    Le,
}

/// Logical operators: `&&` and `||` short-circuit, `&` and `|` do not.
#[derive(Clone, Copy, PartialEq, Eq, Structural)]
pub enum LogicOp {
    And,
    Land,
    Or,
    Lor,
    Implies,
}

/// An information flow from one thing into another.
pub struct Flow<T> {
    pub from: T,
    pub into: T,
}

/// A security class, by name.
pub struct SecurityClass(pub String);

impl Clone for Variable {
    fn clone(&self) -> (r: Self)
        ensures
            r == *self,
    {
        Variable(self.0.clone())
    }
}

impl Clone for Array {
    fn clone(&self) -> (r: Self)
        ensures
            r == *self,
    {
        Array(self.0.clone())
    }
}

impl Clone for SecurityClass {
    fn clone(&self) -> (r: Self)
        ensures
            r == *self,
    {
        SecurityClass(self.0.clone())
    }
}

impl Target<()> {
    /// A copy of the target.
    pub fn copy(&self) -> (r: Self)
        ensures
            r == *self,
    {
        match self {
            Target::Variable(v) => {
                let r = Target::Variable(Variable(v.0.clone()));
                assert(r == *self);
                r
            },
            Target::Array(a, u) => {
                let r = Target::Array(a.clone(), ());
                assert(*u == ());
                assert(r == *self);
                r
            },
        }
    }
}

/// Size of an expression, for termination.
pub open spec fn aexpr_size(e: AExpr) -> nat
    decreases e,
{
    match e {
        AExpr::Number(_) => 1,
        AExpr::Reference(t) => match t {
            Target::Variable(_) => 1,
            Target::Array(_, i) => 1 + aexpr_size(*i),
        },
        AExpr::Binary(l, _, r) => 1 + aexpr_size(*l) + aexpr_size(*r),
        AExpr::Minus(x) => 1 + aexpr_size(*x),
        AExpr::Function(f) => match f {
            Function::Division(a, b) | Function::Min(a, b) | Function::Max(a, b) => 1 + aexpr_size(*a)
                + aexpr_size(*b),
            Function::Count(_, x) | Function::LogicalCount(_, x) | Function::Fac(x) | Function::Fib(
                x,
            ) => 1 + aexpr_size(*x),
            Function::Length(_) | Function::LogicalLength(_) => 1,
        },
    }
}

impl Clone for AExpr {
    fn clone(&self) -> (r: Self)
        ensures
            r == *self,
        decreases aexpr_size(*self), 1int,
    {
        match self {
            AExpr::Number(n) => AExpr::Number(*n),
            AExpr::Reference(t) => AExpr::Reference(t.copy_indexed()),
            AExpr::Binary(l, op, r) => AExpr::Binary(Box::new((**l).clone()), *op, Box::new((**r).clone())),
            AExpr::Minus(x) => AExpr::Minus(Box::new((**x).clone())),
            AExpr::Function(f) => AExpr::Function(f.copy()),
        }
    }
}

impl Target<Box<AExpr>> {
    /// A copy of the target and its index.
    pub fn copy_indexed(&self) -> (r: Self)
        ensures
            r == *self,
        decreases aexpr_size(AExpr::Reference(*self)), 0int,
    {
        match self {
            Target::Variable(v) => Target::Variable(Variable(v.0.clone())),
            Target::Array(a, i) => Target::Array(a.clone(), Box::new((**i).clone())),
        }
    }
}

impl Function {
    /// A copy of the function application.
    pub fn copy(&self) -> (r: Self)
        ensures
            r == *self,
        decreases aexpr_size(AExpr::Function(*self)), 0int,
    {
        match self {
            Function::Division(a, b) => Function::Division(Box::new((**a).clone()), Box::new((**b).clone())),
            Function::Min(a, b) => Function::Min(Box::new((**a).clone()), Box::new((**b).clone())),
            Function::Max(a, b) => Function::Max(Box::new((**a).clone()), Box::new((**b).clone())),
            Function::Count(arr, x) => Function::Count(arr.clone(), Box::new((**x).clone())),
            Function::LogicalCount(arr, x) => Function::LogicalCount(arr.clone(), Box::new((**x).clone())),
            Function::Length(arr) => Function::Length(arr.clone()),
            Function::LogicalLength(arr) => Function::LogicalLength(arr.clone()),
            Function::Fac(x) => Function::Fac(Box::new((**x).clone())),
            Function::Fib(x) => Function::Fib(Box::new((**x).clone())),
        }
    }
}

/// Size of a boolean expression, for termination.
pub open spec fn bexpr_size(b: BExpr) -> nat
    decreases b,
{
    match b {
        BExpr::Bool(_) => 1,
        BExpr::Rel(l, _, r) => 1 + aexpr_size(l) + aexpr_size(r),
        BExpr::Logic(l, _, r) => 1 + bexpr_size(*l) + bexpr_size(*r),
        BExpr::Not(x) => 1 + bexpr_size(*x),
        BExpr::Quantified(_, _, x) => 1 + bexpr_size(*x),
    }
}

impl Clone for BExpr {
    fn clone(&self) -> (r: Self)
        ensures
            r == *self,
        decreases bexpr_size(*self),
    {
        match self {
            BExpr::Bool(b) => BExpr::Bool(*b),
            BExpr::Rel(l, op, r) => BExpr::Rel(l.clone(), *op, r.clone()),
            BExpr::Logic(l, op, r) => BExpr::Logic(Box::new((**l).clone()), *op, Box::new((**r).clone())),
            BExpr::Not(x) => BExpr::Not(Box::new((**x).clone())),
            BExpr::Quantified(q, t, x) => BExpr::Quantified(*q, t.copy(), Box::new((**x).clone())),
        }
    }
}

} // verus!
