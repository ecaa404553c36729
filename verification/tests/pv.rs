use checkr_core::gcl::ast::{AExpr, AOp, BExpr, Command, Commands, Function, Guard, LogicOp, RelOp, Target, Variable};
use checkr_core::gcl::pv::{pv_verdict, ver_con_do, ver_con_if, SatOutcome};
use checkr_core::validation::ValidationResult;

fn var(name: &str) -> AExpr {
    AExpr::Reference(Target::Variable(Variable(name.to_string())))
}

fn target(name: &str) -> Target<Box<AExpr>> {
    Target::Variable(Variable(name.to_string()))
}

fn is_true(b: &BExpr) -> bool {
    matches!(b, BExpr::Bool(true))
}

fn is_var_eq(b: &BExpr, name: &str, n: i64) -> bool {
    match b {
        BExpr::Rel(AExpr::Reference(Target::Variable(Variable(v))), RelOp::Eq, AExpr::Number(m)) => {
            v == name && *m == n
        }
        _ => false,
    }
}

#[test]
fn assignment_substitutes_into_the_postcondition() {
    // x := 3 with postcondition x = 3
    let cmds = Commands(vec![Command::Assignment(target("x"), AExpr::Number(3))]);
    let post = BExpr::Rel(var("x"), RelOp::Eq, AExpr::Number(3));
    let out = cmds.ver_con(post);
    assert_eq!(out.conds.len(), 2);
    assert!(is_var_eq(&out.conds[0], "x", 3));
    assert!(is_true(&out.conds[1]));
    assert!(out.checks.is_empty());
}

#[test]
fn assignment_to_an_absent_variable_keeps_the_postcondition() {
    // y := 7 with postcondition x = 3
    let cmds = Commands(vec![Command::Assignment(target("y"), AExpr::Number(7))]);
    let post = BExpr::Rel(var("x"), RelOp::Eq, AExpr::Number(3));
    let out = cmds.ver_con(post);
    assert_eq!(out.conds.len(), 2);
    assert!(is_var_eq(&out.conds[0], "x", 3));
    assert!(is_var_eq(&out.conds[1], "x", 3));
}

#[test]
fn sequence_is_processed_from_the_end() {
    // x := 3 ; skip with postcondition x = 3
    let cmds = Commands(vec![Command::Assignment(target("x"), AExpr::Number(3)), Command::Skip]);
    let post = BExpr::Rel(var("x"), RelOp::Eq, AExpr::Number(3));
    let out = cmds.ver_con(post);
    assert_eq!(out.conds.len(), 3);
    assert!(is_var_eq(&out.conds[0], "x", 3));
    assert!(is_var_eq(&out.conds[1], "x", 3));
    assert!(is_true(&out.conds[2]));
}

#[test]
fn conditional_adds_the_disjunction_of_its_branches() {
    let guards = vec![
        Guard(BExpr::Bool(true), Commands(vec![Command::Skip])),
        Guard(BExpr::Bool(false), Commands(vec![Command::Skip])),
    ];
    let conds = ver_con_if(&guards, BExpr::Bool(true));
    // two conditions per body, then the disjunction
    assert_eq!(conds.len(), 5);
    match &conds[4] {
        BExpr::Logic(first, LogicOp::Or, second) => {
            // the first branch comes first, its guard `true`
            assert!(matches!(&**first, BExpr::Logic(_, LogicOp::And, g) if is_true(g)));
            assert!(matches!(&**second, BExpr::Logic(_, LogicOp::And, g) if matches!(**g, BExpr::Bool(false))));
        }
        _ => panic!("expected a disjunction"),
    }
    let cmds = Commands(vec![Command::If(guards)]);
    let out = cmds.ver_con(BExpr::Bool(true));
    assert_eq!(out.conds.len(), 6);
    assert!(out.conds.iter().all(is_true));
}

#[test]
fn loop_with_invariant_gives_two_checks_per_branch() {
    let guards = vec![Guard(BExpr::Bool(false), Commands(vec![Command::Skip]))];
    let out = ver_con_do(&guards, BExpr::Bool(true), BExpr::Bool(true));
    // the body's two conditions, then the invariant
    assert_eq!(out.conds.len(), 3);
    assert!(is_true(&out.conds[2]));
    assert_eq!(out.checks.len(), 2);
    match &out.checks[0] {
        BExpr::Not(inner) => match &**inner {
            BExpr::Logic(lhs, LogicOp::Implies, _) => {
                assert!(matches!(&**lhs, BExpr::Logic(_, LogicOp::And, g) if matches!(**g, BExpr::Not(_))));
            }
            _ => panic!("expected an implication"),
        },
        _ => panic!("expected a negation"),
    }
    match &out.checks[1] {
        BExpr::Not(inner) => match &**inner {
            BExpr::Logic(lhs, LogicOp::Implies, _) => {
                assert!(matches!(&**lhs, BExpr::Logic(_, LogicOp::And, g) if matches!(**g, BExpr::Bool(false))));
            }
            _ => panic!("expected an implication"),
        },
        _ => panic!("expected a negation"),
    }
    let cmds = Commands(vec![Command::EnrichedLoop(BExpr::Bool(true), guards)]);
    let all = cmds.ver_con(BExpr::Bool(true));
    assert_eq!(all.conds.len(), 4);
    assert_eq!(all.checks.len(), 2);
}

#[test]
fn division_by_a_variable_must_not_be_by_zero() {
    let e = AExpr::Binary(Box::new(var("x")), AOp::Divide, Box::new(var("y")));
    match e.def() {
        BExpr::Rel(AExpr::Reference(Target::Variable(Variable(v))), RelOp::Ne, AExpr::Number(0)) => {
            assert_eq!(v, "y")
        }
        _ => panic!("expected y != 0"),
    }
    let c = AExpr::Binary(Box::new(var("x")), AOp::Divide, Box::new(AExpr::Number(2)));
    assert!(is_true(&c.def()));
    let f = AExpr::Function(Function::Fac(Box::new(var("n"))));
    assert!(matches!(f.def(), BExpr::Rel(_, RelOp::Ge, AExpr::Number(0))));
}

#[test]
fn verdict_follows_the_solver() {
    let none: Vec<(SatOutcome, String)> = Vec::new();
    assert!(matches!(pv_verdict(&none, SatOutcome::Unsat, "p", "q"), ValidationResult::CorrectTerminated));
    match pv_verdict(&none, SatOutcome::Sat, "p", "q") {
        ValidationResult::Mismatch { reason } => {
            assert_eq!(reason, "Weakest precondition does not contain the user-given precondition")
        }
        _ => panic!("expected a mismatch"),
    }
    match pv_verdict(&none, SatOutcome::Unknown, "p", "q") {
        ValidationResult::Mismatch { reason } => assert_eq!(reason, "Z3 does not know if p => q is valid"),
        _ => panic!("expected a mismatch"),
    }
    let answers = vec![
        (SatOutcome::Unsat, "a".to_string()),
        (SatOutcome::Sat, "b".to_string()),
        (SatOutcome::Unknown, "c".to_string()),
    ];
    match pv_verdict(&answers, SatOutcome::Unsat, "p", "q") {
        ValidationResult::Mismatch { reason } => assert_eq!(reason, "b is not valid"),
        _ => panic!("expected a mismatch"),
    }
    let undecided = vec![(SatOutcome::Unknown, "c".to_string())];
    match pv_verdict(&undecided, SatOutcome::Unsat, "p", "q") {
        ValidationResult::Mismatch { reason } => assert_eq!(reason, "c is unknown to Z3"),
        _ => panic!("expected a mismatch"),
    }
}
