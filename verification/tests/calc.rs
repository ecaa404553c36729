use checkr_core::calc::{int_to_string, CalcEnv, CalcInput, CalcOutput};
use checkr_core::gcl::ast::{AExpr, AOp, Array, Target, Variable};
use checkr_core::gcl::semantics::SemanticsError;
use checkr_core::gcl::stringify::Stringify;
use checkr_core::validation::ValidationResult;

fn bin(l: AExpr, op: AOp, r: AExpr) -> AExpr {
    AExpr::Binary(Box::new(l), op, Box::new(r))
}

fn input(e: AExpr) -> CalcInput {
    CalcInput { expression: Stringify::new(e) }
}

#[test]
fn evaluates_arithmetic() {
    let e = bin(AExpr::Number(1), AOp::Plus, bin(AExpr::Number(2), AOp::Times, AExpr::Number(3)));
    let out = CalcEnv::run(&input(e));
    assert_eq!(out.result, "7");
    assert_eq!(out.error, "");
}

#[test]
fn negative_results_have_a_sign() {
    let e = bin(AExpr::Number(2), AOp::Minus, AExpr::Number(5));
    let out = CalcEnv::run(&input(e));
    assert_eq!(out.result, "-3");
    assert_eq!(int_to_string(i64::MIN), "-9223372036854775808");
    assert_eq!(int_to_string(0), "0");
}

#[test]
fn division_by_zero_is_reported() {
    let e = bin(AExpr::Number(1), AOp::Divide, AExpr::Number(0));
    let out = CalcEnv::run(&input(e));
    assert_eq!(out.result, "");
    assert_eq!(out.error, "division by zero");
}

#[test]
fn variables_are_not_found() {
    let e = AExpr::Reference(Target::Variable(Variable("x".to_string())));
    let out = CalcEnv::run(&input(e));
    assert_eq!(out.error, "variable 'x' not found");
}

#[test]
fn error_messages() {
    let e = SemanticsError::IndexOutOfBound { name: "A".to_string(), index: -2 };
    assert_eq!(e.message(), "index -2 in 'A' is out-of-bounds");
    assert_eq!(SemanticsError::ArrayNotFound { name: "B".to_string() }.message(), "array 'B' not found");
    assert_eq!(SemanticsError::NegativeExponent.message(), "negative exponent");
    let _ = Array("A".to_string());
}

#[test]
fn validation_compares_with_the_reference() {
    let e = bin(AExpr::Number(3), AOp::Plus, AExpr::Number(4));
    let right = CalcOutput { result: "12".to_string(), error: String::new() };
    assert!(matches!(CalcEnv::validate(&input(e), &right), ValidationResult::CorrectTerminated));
    let e = bin(AExpr::Number(3), AOp::Plus, AExpr::Number(4));
    let wrong = CalcOutput { result: String::new(), error: "x".to_string() };
    match CalcEnv::validate(&input(e), &wrong) {
        ValidationResult::Mismatch { reason } => assert_eq!(
            reason,
            "Did not produce same as reference. Output: result=\"\", error=\"x\"; Reference: result=\"7\", error=\"\""
        ),
        _ => panic!("expected a mismatch"),
    }
    let e = bin(AExpr::Number(3), AOp::Divide, AExpr::Number(0));
    let err = CalcOutput { result: String::new(), error: "oops".to_string() };
    assert!(matches!(CalcEnv::validate(&input(e), &err), ValidationResult::CorrectTerminated));
}
