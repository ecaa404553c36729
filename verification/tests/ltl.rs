use checkr_core::ltl::automata::{AutomataGraph, Node};
use checkr_core::ltl::expression::LTLExpression;

fn lit(s: &str) -> LTLExpression {
    LTLExpression::lit(s)
}

fn check_nnf(s: LTLExpression, expected: &str) {
    let nnf = s.nnf();
    assert_eq!(nnf.to_text(), expected);
}

fn format_node(n: &Node) -> String {
    let incoming: Vec<String> = n.incoming.iter().map(|i| i.name()).collect();
    let next: Vec<String> = n.next.iter().map(|f| f.to_text()).collect();
    let old: Vec<String> = n.oldf.iter().map(|f| f.to_text()).collect();
    let new: Vec<String> = n.newf.iter().map(|f| f.to_text()).collect();
    let text = format!(
        "{}
                        incoming: [{}]
                        next:     [{}]
                        old:      [{}]
                        new:      [{}]",
        n.name.name(),
        incoming.join(", "),
        next.join(", "),
        old.join(", "),
        new.join(", ")
    );
    text.lines().map(|l| l.trim()).collect::<Vec<_>>().join("\n  ")
}

fn check_nodes(s: LTLExpression, expected: &str) {
    let nnf = s.nnf();
    let nodes = AutomataGraph::create_graph(&nnf);
    let text = nodes.iter().map(format_node).collect::<Vec<_>>().join("\n");
    assert_eq!(text, expected);
}

#[test]
fn nnf_a() {
    check_nnf(lit("p"), "p");
    check_nnf(lit("p").U(lit("q")), "(p U q)");
}

#[test]
fn nodes_a() {
    check_nodes(
        lit("p"),
        "A1
  incoming: [A0i]
  next:     []
  old:      [p]
  new:      []
A2
  incoming: [A1, A2]
  next:     []
  old:      []
  new:      []",
    );
    check_nodes(
        lit("p").U(lit("q")),
        "A2
  incoming: [A0i, A2]
  next:     [(p U q)]
  old:      [p, (p U q)]
  new:      []
A6
  incoming: [A0i, A2]
  next:     []
  old:      [q, (p U q)]
  new:      []
A7
  incoming: [A6, A7]
  next:     []
  old:      []
  new:      []",
    );
}

#[test]
fn it_should_create_graph_from_ltl() {
    let nodes = AutomataGraph::create_graph(&lit("p").U(lit("q")).nnf());
    assert_eq!(3, nodes.len());
}
