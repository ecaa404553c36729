//! The calculator exercise: evaluate an arithmetic expression that mentions
//! no variable, and judge an answer against the reference.
use vstd::prelude::*;
use vstd::string::*;

use crate::gcl::ast::AExpr;
use crate::gcl::semantics::{aexpr_sem, empty_model, EmptySemanticsContext, SemanticsError};
use crate::gcl::stringify::Stringify;
use crate::text::{decimal, decimal_text};
use crate::validation::ValidationResult;

verus! {

/// The decimal text of an integer, with a minus sign where it is negative.
pub open spec fn int_text(n: int) -> Seq<char> {
    if n < 0 {
        "-"@ + decimal_text((-n) as nat)
    } else {
        decimal_text(n as nat)
    }
}

/// The decimal text of `n`.
pub fn int_to_string(n: i64) -> (r: String)
    ensures
        r@ == int_text(n as int),
{
    if n < 0 {
        let m: u64 = if n == i64::MIN {
            9223372036854775808u64
        } else {
            (-n) as u64
        };
        let mut s = String::from_str("-");
        let d = decimal(m);
        s.append(d.as_str());
        s
    } else {
        decimal(n as u64)
    }
}

/// How an evaluation error reads.
pub open spec fn error_text(e: SemanticsError) -> Seq<char> {
    match e {
        SemanticsError::DivisionByZero => "division by zero"@,
        SemanticsError::NegativeExponent => "negative exponent"@,
        SemanticsError::VariableNotFound { name } => "variable '"@ + name@ + "' not found"@,
        SemanticsError::ArrayNotFound { name } => "array '"@ + name@ + "' not found"@,
        SemanticsError::IndexOutOfBound { name, index } => "index "@ + int_text(index as int) + " in '"@
            + name@ + "' is out-of-bounds"@,
        SemanticsError::NoProgression => "no progression"@,
        SemanticsError::ArithmeticOverflow => "an arithmetic operation overflowed"@,
        SemanticsError::EvaluateQuantifier => "tried to evaluate a quantified expression"@,
        SemanticsError::OutsideFunctionDomain => "tried to evaluate function where argument was outside of domain"@,
    }
}

impl SemanticsError {
    /// How the error reads.
    pub fn message(&self) -> (r: String)
        ensures
            r@ == error_text(*self),
    {
        match self {
            SemanticsError::DivisionByZero => String::from_str("division by zero"),
            SemanticsError::NegativeExponent => String::from_str("negative exponent"),
            SemanticsError::VariableNotFound { name } => {
                let mut s = String::from_str("variable '");
                s.append(name.as_str());
                s.append("' not found");
                s
            },
            SemanticsError::ArrayNotFound { name } => {
                let mut s = String::from_str("array '");
                s.append(name.as_str());
                s.append("' not found");
                s
            },
            SemanticsError::IndexOutOfBound { name, index } => {
                let mut s = String::from_str("index ");
                let i = int_to_string(*index);
                s.append(i.as_str());
                s.append(" in '");
                s.append(name.as_str());
                s.append("' is out-of-bounds");
                s
            },
            SemanticsError::NoProgression => String::from_str("no progression"),
            SemanticsError::ArithmeticOverflow => String::from_str("an arithmetic operation overflowed"),
            SemanticsError::EvaluateQuantifier => String::from_str("tried to evaluate a quantified expression"),
            SemanticsError::OutsideFunctionDomain => String::from_str(
                "tried to evaluate function where argument was outside of domain",
            ),
        }
    }
}

/// The expression to evaluate.
pub struct CalcInput {
    pub expression: Stringify<AExpr>,
}

/// The value of the expression, or the error that evaluating it met; the
/// other one is empty.
pub struct CalcOutput {
    pub result: String,
    pub error: String,
}

/// The reference answer for `e`: its value, or its error.
pub open spec fn calc_reference(e: AExpr) -> (Seq<char>, Seq<char>) {
    match aexpr_sem(e, empty_model()) {
        Some(Ok(v)) => (int_text(v as int), Seq::empty()),
        Some(Err(err)) => (Seq::empty(), error_text(err)),
        None => (Seq::empty(), Seq::empty()),
    }
}

/// How `{:?}` writes a string: quoted, with quotes, backslashes and
/// unprintable characters escaped.
pub uninterp spec fn debug_text(s: Seq<char>) -> Seq<char>;

/// The string as `{:?}` writes it (std's `Debug` for `str`).
#[verifier::external_body]
fn debug_string(s: &str) -> (r: String)
    ensures
        r@ == debug_text(s@),
{
    format!("{:?}", s)
}

/// Why an answer differs from the reference.
pub open spec fn calc_mismatch(output: (Seq<char>, Seq<char>), reference: (Seq<char>, Seq<char>)) -> Seq<char> {
    "Did not produce same as reference. Output: result="@ + debug_text(output.0) + ", error="@
        + debug_text(output.1) + "; Reference: result="@ + debug_text(reference.0) + ", error="@
        + debug_text(reference.1)
}

/// The calculator exercise.
pub struct CalcEnv;

impl CalcEnv {
    /// Evaluates the expression without variables.
    pub fn run(input: &CalcInput) -> (r: CalcOutput)
        requires
            aexpr_sem(input.expression.0, empty_model()) is Some,
        ensures
            (r.result@, r.error@) == calc_reference(input.expression.0),
    {
        match input.expression.0.semantics(&EmptySemanticsContext) {
            Ok(v) => CalcOutput { result: int_to_string(v), error: String::new() },
            Err(err) => CalcOutput { result: String::new(), error: err.message() },
        }
    }

    /// An answer is right where it has a result and so does the reference,
    /// or it has an error and so does the reference.
    pub fn validate(input: &CalcInput, output: &CalcOutput) -> (r: ValidationResult)
        requires
            aexpr_sem(input.expression.0, empty_model()) is Some,
        ensures
            ({
                let reference = calc_reference(input.expression.0);
                if (reference.0.len() > 0 && output.result@.len() > 0) || (reference.1.len() > 0
                    && output.error@.len() > 0) {
                    r is CorrectTerminated
                } else {
                    r matches ValidationResult::Mismatch { reason } && reason@ == calc_mismatch(
                        (output.result@, output.error@),
                        reference,
                    )
                }
            }),
    {
        let reference = Self::run(input);
        let both_results = !reference.result.as_str().is_empty() && !output.result.as_str().is_empty();
        let both_errors = !reference.error.as_str().is_empty() && !output.error.as_str().is_empty();
        if both_results || both_errors {
            ValidationResult::CorrectTerminated
        } else {
            let mut reason = String::from_str("Did not produce same as reference. Output: result=");
            let a = debug_string(output.result.as_str());
            reason.append(a.as_str());
            reason.append(", error=");
            let b = debug_string(output.error.as_str());
            reason.append(b.as_str());
            reason.append("; Reference: result=");
            let c = debug_string(reference.result.as_str());
            reason.append(c.as_str());
            reason.append(", error=");
            let d = debug_string(reference.error.as_str());
            reason.append(d.as_str());
            ValidationResult::Mismatch { reason }
        }
    }
}

} // verus!
