use checkr_core::gcl::ast::{AExpr, Array, BExpr, Command, Commands, Flow, Guard, RelOp, Target, Variable};

fn var(name: &str) -> AExpr {
    AExpr::Reference(Target::Variable(Variable(name.to_string())))
}

fn name(t: &Target<()>) -> String {
    match t {
        Target::Variable(v) => v.0.clone(),
        Target::Array(a, _) => format!("{}[]", a.0),
    }
}

fn pairs(flows: &[Flow<Target<()>>]) -> Vec<(String, String)> {
    let mut v: Vec<(String, String)> = flows.iter().map(|f| (name(&f.from), name(&f.into))).collect();
    v.sort();
    v
}

fn p(a: &str, b: &str) -> (String, String) {
    (a.to_string(), b.to_string())
}

#[test]
fn assignment_flows_from_what_it_reads() {
    // x := y + z
    let c = Command::Assignment(
        Target::Variable(Variable("x".to_string())),
        AExpr::Binary(Box::new(var("y")), checkr_core::gcl::ast::AOp::Plus, Box::new(var("z"))),
    );
    assert_eq!(pairs(&c.flows()), vec![p("y", "x"), p("z", "x")]);
}

#[test]
fn array_index_flows_into_the_array() {
    // A[i] := y
    let c = Command::Assignment(Target::Array(Array("A".to_string()), Box::new(var("i"))), var("y"));
    assert_eq!(pairs(&c.flows()), vec![p("i", "A[]"), p("y", "A[]")]);
}

#[test]
fn guards_flow_implicitly_into_later_branches() {
    // if a > 0 -> x := 1 [] b > 0 -> y := 2 fi
    let g1 = Guard(
        BExpr::Rel(var("a"), RelOp::Gt, AExpr::Number(0)),
        Commands(vec![Command::Assignment(Target::Variable(Variable("x".to_string())), AExpr::Number(1))]),
    );
    let g2 = Guard(
        BExpr::Rel(var("b"), RelOp::Gt, AExpr::Number(0)),
        Commands(vec![Command::Assignment(Target::Variable(Variable("y".to_string())), AExpr::Number(2))]),
    );
    let prog = Commands(vec![Command::If(vec![g1, g2])]);
    assert_eq!(pairs(&prog.flows()), vec![p("a", "x"), p("a", "y"), p("b", "y")]);
}

#[test]
fn skip_has_no_flows() {
    assert!(Command::Skip.flows().is_empty());
    assert!(Commands(vec![]).flows().is_empty());
}

#[test]
fn each_flow_is_listed_once() {
    // x := y ; x := y
    let c = || Command::Assignment(Target::Variable(Variable("x".to_string())), var("y"));
    let prog = Commands(vec![c(), c()]);
    assert_eq!(pairs(&prog.flows()), vec![p("y", "x")]);
}
