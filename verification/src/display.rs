//! The text of a Büchi automaton: its nodes in the order of their names,
//! each with its transitions, then its initial and its accepting nodes.
use vstd::prelude::*;
use vstd::string::*;

use crate::buchi::{id_seq, Buchi, Neighbors, NodeId, State};
use crate::ltl::expression::Literal;
use crate::names::names;
use crate::text::{
    chars_order, compare_str, lemma_chars_order_antisym, lemma_chars_order_eq, lemma_chars_order_trans,
};

verus! {

/// `xs` with `sep` between each two.
pub open spec fn join(xs: Seq<Seq<char>>, sep: Seq<char>) -> Seq<char>
    decreases xs.len(),
{
    if xs.len() == 0 {
        Seq::empty()
    } else if xs.len() == 1 {
        xs[0]
    } else {
        join(xs.drop_last(), sep) + sep + xs.last()
    }
}

/// How a label is written: `*` for any set, else each set as its
/// propositions joined by commas, the sets joined by ` | `.
pub open spec fn label_text(n: Neighbors) -> Seq<char> {
    match n {
        Neighbors::Any => "*"@,
        Neighbors::Just(v) => join(v@.map_values(|ls: Vec<Literal>| join(names(ls@), ","@)), " | "@),
    }
}

/// Node `a` comes before node `b`: its name is smaller, or the names are
/// equal and it comes first.
pub open spec fn name_lt(ns: Seq<Seq<char>>, a: usize, b: usize) -> bool {
    chars_order(ns[a as int], ns[b as int]) < 0 || (ns[a as int] == ns[b as int] && a < b)
}

/// `order` lists each node once, in the order of their names, nodes of the
/// same name in the order of the automaton.
pub open spec fn by_name(ns: Seq<Seq<char>>, order: Seq<usize>) -> bool {
    &&& order.len() == ns.len()
    &&& forall|k: int| 0 <= k < order.len() ==> (#[trigger] order[k] as int) < ns.len()
    &&& forall|k: int, l: int| 0 <= k < l < order.len() ==> name_lt(ns, #[trigger] order[k], #[trigger] order[l])
}

proof fn lemma_name_lt_facts(ns: Seq<Seq<char>>, a: usize, b: usize)
    ensures
        name_lt(ns, a, b) ==> !name_lt(ns, b, a),
        a != b ==> name_lt(ns, a, b) || name_lt(ns, b, a),
        !name_lt(ns, a, a),
{
    lemma_chars_order_antisym(ns[a as int], ns[b as int]);
    lemma_chars_order_eq(ns[a as int], ns[b as int]);
    lemma_chars_order_eq(ns[a as int], ns[a as int]);
}

proof fn lemma_name_lt_trans(ns: Seq<Seq<char>>, a: usize, b: usize, c: usize)
    requires
        name_lt(ns, a, b),
        name_lt(ns, b, c),
    ensures
        name_lt(ns, a, c),
{
    lemma_chars_order_eq(ns[a as int], ns[b as int]);
    lemma_chars_order_eq(ns[b as int], ns[c as int]);
    if chars_order(ns[a as int], ns[b as int]) < 0 && chars_order(ns[b as int], ns[c as int]) < 0 {
        lemma_chars_order_trans(ns[a as int], ns[b as int], ns[c as int]);
    }
}

/// The names of a list of strings.
pub open spec fn views(v: Seq<String>) -> Seq<Seq<char>> {
    v.map_values(|s: String| s@)
}

/// The nodes `0..n` in the order of their names.
fn sort_by_name(ns: &Vec<String>) -> (order: Vec<usize>)
    ensures
        by_name(views(ns@), order@),
{
    let ghost vs = views(ns@);
    let mut order: Vec<usize> = Vec::new();
    let mut i: usize = 0;
    while i < ns.len()
        invariant
            i <= ns@.len(),
            vs == views(ns@),
            order@.len() == i,
            forall|k: int| 0 <= k < order@.len() ==> (#[trigger] order@[k] as int) < i,
            forall|k: int, l: int| 0 <= k < l < order@.len() ==> name_lt(vs, #[trigger] order@[k], #[trigger] order@[l]),
            forall|k: int, l: int| 0 <= k < l < order@.len() ==> #[trigger] order@[k] != #[trigger] order@[l],
        decreases ns@.len() - i,
    {
        // the place of `i`: after every node that comes before it
        let mut p: usize = 0;
        while p < order.len() && compare_str(ns[order[p]].as_str(), ns[i].as_str()) <= 0
            invariant
                i < ns@.len(),
                vs == views(ns@),
                p <= order@.len(),
                order@.len() == i,
                forall|k: int| 0 <= k < order@.len() ==> (#[trigger] order@[k] as int) < i,
                forall|k: int| 0 <= k < p ==> name_lt(vs, #[trigger] order@[k], i),
            decreases order@.len() - p,
        {
            proof {
                let e = order@[p as int];
                lemma_chars_order_eq(vs[e as int], vs[i as int]);
                assert(vs[e as int] == ns@[e as int]@);
                assert(vs[i as int] == ns@[i as int]@);
            }
            p = p + 1;
        }
        proof {
            if p < order@.len() {
                let e = order@[p as int];
                assert(vs[e as int] == ns@[e as int]@);
                assert(vs[i as int] == ns@[i as int]@);
                assert(chars_order(vs[e as int], vs[i as int]) > 0);
                lemma_chars_order_antisym(vs[e as int], vs[i as int]);
                assert(name_lt(vs, i, e));
                assert forall|k: int| p <= k < order@.len() implies name_lt(vs, i, #[trigger] order@[k]) by {
                    if k > p {
                        lemma_name_lt_trans(vs, i, order@[p as int], order@[k]);
                    }
                }
            }
        }
        let ghost o0 = order@;
        order.insert(p, i);
        proof {
            assert forall|k: int| 0 <= k < order@.len() implies (#[trigger] order@[k] as int) < i + 1 by {
                if k < p {
                    assert(order@[k] == o0[k]);
                } else if k > p {
                    assert(order@[k] == o0[k - 1]);
                }
            }
            assert forall|k: int, l: int| 0 <= k < l < order@.len() implies name_lt(
                vs,
                #[trigger] order@[k],
                #[trigger] order@[l],
            ) by {
                if l < p {
                    assert(order@[k] == o0[k] && order@[l] == o0[l]);
                } else if l == p {
                    assert(order@[k] == o0[k]);
                } else if k < p {
                    assert(order@[k] == o0[k] && order@[l] == o0[l - 1]);
                } else if k == p {
                    assert(order@[l] == o0[l - 1]);
                } else {
                    assert(order@[k] == o0[k - 1] && order@[l] == o0[l - 1]);
                }
            }
            assert forall|k: int, l: int| 0 <= k < l < order@.len() implies #[trigger] order@[k]
                != #[trigger] order@[l] by {
                lemma_name_lt_facts(vs, order@[k], order@[l]);
            }
        }
        i = i + 1;
    }
    order
}

/// The lines of the transitions `adj`, each `   =[label]=> target`.
pub open spec fn edges_text(adj: Seq<(NodeId, Neighbors)>, ns: Seq<Seq<char>>) -> Seq<char>
    decreases adj.len(),
{
    if adj.len() == 0 {
        Seq::empty()
    } else {
        edges_text(adj.drop_last(), ns) + "   =["@ + label_text(adj.last().1) + "]=> "@ + ns[
        adj.last().0.0 as int] + "\n"@
    }
}

/// The lines of the nodes of `order`, each named and followed by its
/// transitions.
pub open spec fn nodes_text<S>(b: Buchi<S>, ns: Seq<Seq<char>>, order: Seq<usize>) -> Seq<char>
    decreases order.len(),
{
    if order.len() == 0 {
        Seq::empty()
    } else {
        nodes_text(b, ns, order.drop_last()) + " "@ + ns[order.last() as int] + " []\n"@ + edges_text(
            b.nodes.nodes@[order.last() as int].adj@,
            ns,
        )
    }
}

/// The names of a list of nodes.
pub open spec fn node_names(ids: Seq<u32>, ns: Seq<Seq<char>>) -> Seq<Seq<char>> {
    ids.map_values(|i: u32| ns[i as int])
}

/// The text of `b` where node `i` is called `ns[i]`, its nodes listed in
/// `order`.
pub open spec fn display_text<S>(b: Buchi<S>, ns: Seq<Seq<char>>, order: Seq<usize>) -> Seq<char> {
    "States:\n"@ + nodes_text(b, ns, order) + "Initial: "@ + join(node_names(id_seq(b.init_states@), ns), " "@)
        + "\n"@ + "Accept:  ["@ + join(node_names(id_seq(b.accepting_states@), ns), ", "@) + "]\n"@
}

/// Appends `xs` joined by `sep`.
fn append_joined(s: &mut String, xs: &Vec<String>, sep: &str)
    ensures
        final(s)@ == old(s)@ + join(views(xs@), sep@),
{
    let ghost s0 = s@;
    let mut i: usize = 0;
    proof {
        assert(views(xs@).take(0) =~= Seq::<Seq<char>>::empty());
    }
    while i < xs.len()
        invariant
            i <= xs@.len(),
            s@ == s0 + join(views(xs@).take(i as int), sep@),
        decreases xs@.len() - i,
    {
        let ghost before = s@;
        if i > 0 {
            s.append(sep);
        }
        s.append(xs[i].as_str());
        proof {
            let t = views(xs@).take(i + 1);
            assert(t.drop_last() =~= views(xs@).take(i as int));
            assert(t.last() == xs@[i as int]@);
            if i == 0 {
                assert(t.len() == 1);
                assert(s@ =~= s0 + join(t, sep@));
            } else {
                assert(s@ =~= s0 + join(t, sep@));
            }
        }
        i = i + 1;
    }
    proof {
        assert(views(xs@).take(i as int) =~= views(xs@));
    }
}

/// How a label is written.
fn label_string(n: &Neighbors) -> (r: String)
    ensures
        r@ == label_text(*n),
{
    match n {
        Neighbors::Any => String::from_str("*"),
        Neighbors::Just(v) => {
            let mut sets: Vec<String> = Vec::new();
            let mut i: usize = 0;
            while i < v.len()
                invariant
                    i <= v@.len(),
                    views(sets@) == v@.take(i as int).map_values(|ls: Vec<Literal>| join(names(ls@), ","@)),
                decreases v@.len() - i,
            {
                let mut props: Vec<String> = Vec::new();
                let mut k: usize = 0;
                while k < v[i].len()
                    invariant
                        i < v@.len(),
                        k <= v@[i as int]@.len(),
                        views(props@) == names(v@[i as int]@).take(k as int),
                    decreases v@[i as int]@.len() - k,
                {
                    let ghost before = views(props@);
                    let c = v[i][k].0.clone();
                    props.push(c);
                    proof {
                        assert(c@ == v@[i as int]@[k as int]@);
                        assert(views(props@) =~= before.push(c@));
                        assert(names(v@[i as int]@).take(k + 1) =~= names(v@[i as int]@).take(k as int).push(
                            v@[i as int]@[k as int]@,
                        ));
                        assert(views(props@) =~= names(v@[i as int]@).take(k + 1));
                    }
                    k = k + 1;
                }
                proof {
                    assert(names(v@[i as int]@).take(k as int) =~= names(v@[i as int]@));
                }
                let mut one = String::new();
                append_joined(&mut one, &props, ",");
                let ghost before = views(sets@);
                sets.push(one);
                proof {
                    assert(views(sets@) =~= before.push(join(names(v@[i as int]@), ","@)));
                    assert(views(sets@) =~= v@.take(i + 1).map_values(|ls: Vec<Literal>| join(names(ls@), ","@)));
                }
                i = i + 1;
            }
            proof {
                assert(v@.take(i as int) =~= v@);
            }
            let mut r = String::new();
            append_joined(&mut r, &sets, " | ");
            r
        },
    }
}

/// The names of the nodes with the given ids.
fn names_of_ids(ids: &Vec<NodeId>, ns: &Vec<String>) -> (r: Vec<String>)
    requires
        forall|k: int| 0 <= k < ids@.len() ==> (#[trigger] ids@[k]).0 < ns@.len(),
    ensures
        views(r@) == node_names(id_seq(ids@), views(ns@)),
{
    let mut r: Vec<String> = Vec::new();
    let mut i: usize = 0;
    while i < ids.len()
        invariant
            i <= ids@.len(),
            forall|k: int| 0 <= k < ids@.len() ==> (#[trigger] ids@[k]).0 < ns@.len(),
            views(r@) == node_names(id_seq(ids@), views(ns@)).take(i as int),
        decreases ids@.len() - i,
    {
        proof {
            assert(ids@[i as int].0 < ns@.len());
        }
        let ghost before = views(r@);
        let c = ns[ids[i].0 as usize].clone();
        r.push(c);
        proof {
            assert(views(r@) =~= before.push(c@));
            assert(node_names(id_seq(ids@), views(ns@)).take(i + 1) =~= node_names(id_seq(ids@), views(ns@)).take(
                i as int,
            ).push(views(ns@)[ids@[i as int].0 as int]));
            assert(views(r@) =~= node_names(id_seq(ids@), views(ns@)).take(i + 1));
        }
        i = i + 1;
    }
    proof {
        assert(node_names(id_seq(ids@), views(ns@)).take(i as int) =~= node_names(id_seq(ids@), views(ns@)));
    }
    r
}

impl<S: State> Buchi<S> {
    /// The text of the automaton, node `i` being called `ns[i]`: its nodes
    /// in the order of their names, each with its transitions in order, then
    /// its initial nodes and its accepting nodes.
    pub fn display(&self, ns: &Vec<String>) -> (r: String)
        requires
            self.wf(),
            ns@.len() == self@.ids.len(),
            forall|i: int, j: int|
                0 <= i < self@.adj.len() && #[trigger] self@.adj[i].contains_key(j as u32) ==> j < ns@.len(),
            forall|k: int| 0 <= k < self.init_states@.len() ==> (#[trigger] self.init_states@[k]).0 < ns@.len(),
            forall|k: int|
                0 <= k < self.accepting_states@.len() ==> (#[trigger] self.accepting_states@[k]).0 < ns@.len(),
        ensures
            exists|order: Seq<usize>| by_name(views(ns@), order) && r@ == display_text(*self, views(ns@), order),
    {
        let order = sort_by_name(ns);
        let ghost vs = views(ns@);
        let mut s = String::from_str("States:\n");
        let mut i: usize = 0;
        proof {
            assert(order@.take(0) =~= Seq::<usize>::empty());
        }
        while i < order.len()
            invariant
                i <= order@.len(),
                vs == views(ns@),
                by_name(vs, order@),
                ns@.len() == self@.ids.len(),
                self.wf(),
                forall|a: int, j: int|
                    0 <= a < self@.adj.len() && #[trigger] self@.adj[a].contains_key(j as u32) ==> j < ns@.len(),
                s@ == "States:\n"@ + nodes_text(*self, vs, order@.take(i as int)),
            decreases order@.len() - i,
        {
            let x = order[i];
            proof {
                assert((order@[i as int] as int) < ns@.len());
            }
            s.append(" ");
            s.append(ns[x].as_str());
            s.append(" []\n");
            let adj = &self.nodes.nodes[x].adj;
            let ghost s1 = s@;
            let mut j: usize = 0;
            proof {
                assert(adj@.take(0) =~= Seq::<(NodeId, Neighbors)>::empty());
            }
            while j < adj.len()
                invariant
                    j <= adj@.len(),
                    vs == views(ns@),
                    (x as int) < ns@.len(),
                    adj@ == self.nodes.nodes@[x as int].adj@,
                    self@.adj[x as int] == crate::buchi::adj_map(adj@),
                    (x as int) < self@.adj.len(),
                    forall|a: int, t: int|
                        0 <= a < self@.adj.len() && #[trigger] self@.adj[a].contains_key(t as u32) ==> t < ns@.len(),
                    s@ == s1 + edges_text(adj@.take(j as int), vs),
                decreases adj@.len() - j,
            {
                let t = adj[j].0;
                proof {
                    assert(crate::buchi::adj_map(adj@).contains_key(t.0));
                    assert(self@.adj[x as int].contains_key((t.0 as int) as u32));
                    assert((t.0 as int) < ns@.len());
                    assert(adj@.take(j + 1).drop_last() =~= adj@.take(j as int));
                    assert(adj@.take(j + 1).last() == adj@[j as int]);
                }
                s.append("   =[");
                let l = label_string(&adj[j].1);
                s.append(l.as_str());
                s.append("]=> ");
                s.append(ns[t.0 as usize].as_str());
                s.append("\n");
                proof {
                    assert(s@ =~= s1 + edges_text(adj@.take(j + 1), vs));
                }
                j = j + 1;
            }
            proof {
                assert(adj@.take(j as int) =~= adj@);
                assert(order@.take(i + 1).drop_last() =~= order@.take(i as int));
                assert(order@.take(i + 1).last() == x);
                assert(s@ =~= "States:\n"@ + nodes_text(*self, vs, order@.take(i + 1)));
            }
            i = i + 1;
        }
        proof {
            assert(order@.take(i as int) =~= order@);
        }
        s.append("Initial: ");
        let inits = names_of_ids(&self.init_states, ns);
        append_joined(&mut s, &inits, " ");
        s.append("\n");
        s.append("Accept:  [");
        let accs = names_of_ids(&self.accepting_states, ns);
        append_joined(&mut s, &accs, ", ");
        s.append("]\n");
        proof {
            assert(s@ =~= display_text(*self, vs, order@));
        }
        s
    }
}

} // verus!
