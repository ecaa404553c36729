use checkr_core::gcl::ast::{AExpr, AOp, Target, Variable};
use checkr_core::gcl::interpreter::InterpreterMemory;

fn var(name: &str) -> AExpr {
    AExpr::Reference(Target::Variable(Variable(name.to_string())))
}

fn bin(l: AExpr, op: AOp, r: AExpr) -> AExpr {
    AExpr::Binary(Box::new(l), op, Box::new(r))
}

fn memory(x: i64, y: i64) -> InterpreterMemory {
    InterpreterMemory {
        variables: vec![(Variable("x".to_string()), x), (Variable("y".to_string()), y)],
        arrays: vec![],
    }
}

#[test]
fn reducing_keeps_the_value() {
    // (x - 2 * y) + (7 - (-x)) at x = 3, y = 5
    let e = bin(
        bin(var("x"), AOp::Minus, bin(AExpr::Number(2), AOp::Times, var("y"))),
        AOp::Plus,
        bin(AExpr::Number(7), AOp::Minus, AExpr::Minus(Box::new(var("x")))),
    );
    let m = memory(3, 5);
    let before = e.semantics(&m).ok().unwrap();
    let after = e.reduce().semantics(&m).ok().unwrap();
    assert_eq!(before, 3);
    assert_eq!(after, before);
}

#[test]
fn substituting_is_binding_the_value() {
    // x * x + y with x := y + 1, at x = 3, y = 5: the same as x = 6
    let e = bin(bin(var("x"), AOp::Times, var("x")), AOp::Plus, var("y"));
    let x = bin(var("y"), AOp::Plus, AExpr::Number(1));
    let t: Target<()> = Target::Variable(Variable("x".to_string()));
    let substituted = e.subst_var(&t, &x).semantics(&memory(3, 5)).ok().unwrap();
    let bound = e.semantics(&memory(6, 5)).ok().unwrap();
    assert_eq!(substituted, 41);
    assert_eq!(substituted, bound);
}
