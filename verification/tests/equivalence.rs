use checkr_core::gcl::ast::{AExpr, AOp, BExpr, RelOp, Target, Variable};
use checkr_core::gcl::equivalence::{check_programs_for_semantic_equivalence, pretty_verdict};
use checkr_core::gcl::interpreter::InterpreterMemory;
use checkr_core::gcl::pg::{Action, Edge, Node, ProgramGraph};
use checkr_core::validation::ValidationResult;

fn x() -> Target<Box<AExpr>> {
    Target::Variable(Variable("x".to_string()))
}

fn mem(v: i64) -> InterpreterMemory {
    InterpreterMemory { variables: vec![(Variable("x".to_string()), v)], arrays: vec![] }
}

fn assign(n: i64) -> ProgramGraph {
    ProgramGraph::new(vec![Edge(Node::Start, Action::Assignment(x(), AExpr::Number(n)), Node::End)])
}

#[test]
fn same_assignment_is_equivalent() {
    let ms = vec![mem(0), mem(5), mem(-3)];
    assert!(check_programs_for_semantic_equivalence(&assign(1), &assign(1), &ms));
}

#[test]
fn different_result_is_not_equivalent() {
    let ms = vec![mem(0)];
    assert!(!check_programs_for_semantic_equivalence(&assign(1), &assign(2), &ms));
}

#[test]
fn lock_step_needs_the_same_number_of_steps() {
    // x := 1  versus  x := 0 ; x := x + 1
    let two = ProgramGraph::new(vec![
        Edge(Node::Start, Action::Assignment(x(), AExpr::Number(0)), Node::Node(1)),
        Edge(
            Node::Node(1),
            Action::Assignment(
                x(),
                AExpr::Binary(Box::new(AExpr::Reference(x())), AOp::Plus, Box::new(AExpr::Number(1))),
            ),
            Node::End,
        ),
    ]);
    let ms = vec![mem(7)];
    // one run has ended while the other can still step
    assert!(!check_programs_for_semantic_equivalence(&assign(1), &two, &ms));
    assert!(check_programs_for_semantic_equivalence(&two, &two, &ms));
}

#[test]
fn stuck_against_running_is_not_equivalent() {
    // a condition that fails leaves the program stuck
    let stuck = ProgramGraph::new(vec![Edge(
        Node::Start,
        Action::Condition(BExpr::Rel(AExpr::Reference(x()), RelOp::Gt, AExpr::Number(100))),
        Node::End,
    )]);
    let ms = vec![mem(0)];
    assert!(!check_programs_for_semantic_equivalence(&assign(0), &stuck, &ms));
    // no initial memory: nothing to disagree on
    assert!(check_programs_for_semantic_equivalence(&assign(0), &stuck, &vec![]));
}

#[test]
fn pretty_verdicts() {
    assert!(matches!(pretty_verdict(None, true), ValidationResult::CorrectTerminated));
    match pretty_verdict(None, false) {
        ValidationResult::Mismatch { reason } => assert_eq!(
            reason,
            "the pretty printed program is not semantically equivalent to the original program"
        ),
        _ => panic!("expected a mismatch"),
    }
    match pretty_verdict(Some("E".to_string()), true) {
        ValidationResult::Mismatch { reason } => assert_eq!(reason, "failed to parse pretty output: E"),
        _ => panic!("expected a mismatch"),
    }
}
