//! Program graphs: nodes joined by edges that carry actions.
use vstd::prelude::*;

use super::ast::{AExpr, BExpr, Target};
use crate::text::{decimal, decimal_text};

verus! {

/// A node of a program graph: the start, the end, or a numbered node.
#[derive(Clone, Copy, PartialEq, Eq, Structural, Debug)]
pub enum Node {
    Start,
    Node(u64),
    End,
}

/// The name of a node: `q▷` for the start, `q◀` for the end, `q` and the
/// number otherwise.
pub open spec fn node_name(n: Node) -> Seq<char> {
    match n {
        Node::Start => "q▷"@,
        Node::End => "q◀"@,
        Node::Node(i) => "q"@ + decimal_text(i as nat),
    }
}

impl Node {
    /// The name of the node.
    pub fn name(&self) -> (r: String)
        ensures
            r@ == node_name(*self),
    {
        match self {
            Node::Start => String::from_str("q▷"),
            Node::End => String::from_str("q◀"),
            Node::Node(i) => {
                let mut s = String::from_str("q");
                let d = decimal(*i);
                s.append(d.as_str());
                s
            },
        }
    }
}

/// What an edge does: assign, do nothing, or test a condition.
pub enum Action {
    Assignment(Target<Box<AExpr>>, AExpr),
    Skip,
    Condition(BExpr),
}

impl Clone for Action {
    fn clone(&self) -> (r: Self)
        ensures
            r == *self,
    {
        match self {
            Action::Assignment(t, a) => Action::Assignment(t.copy_indexed(), a.clone()),
            Action::Skip => Action::Skip,
            Action::Condition(b) => Action::Condition(b.clone()),
        }
    }
}

/// An edge from a node to a node, carrying an action.
pub struct Edge(pub Node, pub Action, pub Node);

impl Clone for Edge {
    fn clone(&self) -> (r: Self)
        ensures
            r == *self,
    {
        Edge(self.0, self.1.clone(), self.2)
    }
}

/// A program graph, as its edges.
pub struct ProgramGraph {
    pub edges: Vec<Edge>,
}

/// The edges of `edges` that leave `n`, in order.
pub open spec fn outgoing_edges(edges: Seq<Edge>, n: Node) -> Seq<Edge> {
    edges.filter(|e: Edge| e.0 == n)
}

impl ProgramGraph {
    /// The graph with the given edges.
    pub fn new(edges: Vec<Edge>) -> (r: Self)
        ensures
            r.edges@ == edges@,
    {
        ProgramGraph { edges }
    }

    /// The edges that leave `n`, in the order of the graph.
    pub fn outgoing(&self, n: Node) -> (r: Vec<Edge>)
        ensures
            r@ == outgoing_edges(self.edges@, n),
    {
        let mut r: Vec<Edge> = Vec::new();
        let mut i: usize = 0;
        proof {
            reveal(Seq::filter);
        }
        while i < self.edges.len()
            invariant
                i <= self.edges@.len(),
                r@ == outgoing_edges(self.edges@.take(i as int), n),
            decreases self.edges@.len() - i,
        {
            if self.edges[i].0 == n {
                r.push(self.edges[i].clone());
            }
            proof {
                reveal(Seq::filter);
                assert(self.edges@.take(i + 1).drop_last() =~= self.edges@.take(i as int));
            }
            i = i + 1;
        }
        assert(self.edges@.take(i as int) =~= self.edges@);
        r
    }
}

} // verus!
