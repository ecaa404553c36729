//! Exploring the product of two Büchi automata pair by pair: the initial
//! and accepting pairs, the transitions of a pair, and the pairs that the
//! initial pairs lead to.
use vstd::prelude::*;

use crate::buchi::{
    adj_wf, intersection_of, id_seq, BaV, Buchi, GeneralBuchi, Neighbors, NeighborsV, NodeId, State,
};
use crate::counting::{lemma_join, lemma_pos_bound, lemma_split};
use crate::emptiness::{
    ba_refs_valid, code, lemma_marked_bound, lemma_marked_mark, marked, pair_ids, pair_seq, product_edge,
    product_path, product_succ, to_pairs, ProductBuchi,
};

verus! {

/// Every pair of an element of `a` with an element of `b`, in the order of
/// `a`, then of `b`.
pub open spec fn cartesian(a: Seq<u32>, b: Seq<u32>) -> Seq<(u32, u32)>
    decreases a.len(),
{
    if a.len() == 0 {
        Seq::empty()
    } else {
        cartesian(a.drop_last(), b) + b.map_values(|y: u32| (a.last(), y))
    }
}

/// The transitions of a node as targets and labels, in order.
pub open spec fn entries(v: Seq<(NodeId, Neighbors)>) -> Seq<(u32, NeighborsV)> {
    v.map_values(|e: (NodeId, Neighbors)| (e.0.0, e.1@))
}

/// The label takes no set.
pub open spec fn label_empty(l: NeighborsV) -> bool {
    l matches NeighborsV::Just(s) && s.len() == 0
}

/// The transitions of the product from a transition `a` of the first
/// automaton with the transitions `vb` of the second: those whose labels
/// share a set, labelled by the common sets, in the order of `vb`.
pub open spec fn label_row(a: (u32, NeighborsV), vb: Seq<(u32, NeighborsV)>) -> Seq<((u32, u32), NeighborsV)>
    decreases vb.len(),
{
    if vb.len() == 0 {
        Seq::empty()
    } else {
        let rest = label_row(a, vb.drop_last());
        let l = intersection_of(a.1, vb.last().1);
        if label_empty(l) {
            rest
        } else {
            rest.push(((a.0, vb.last().0), l))
        }
    }
}

/// The transitions of the product from the transitions `va` and `vb`: for
/// each transition of `va` in order, its row.
pub open spec fn label_grid(va: Seq<(u32, NeighborsV)>, vb: Seq<(u32, NeighborsV)>) -> Seq<((u32, u32), NeighborsV)>
    decreases va.len(),
{
    if va.len() == 0 {
        Seq::empty()
    } else {
        label_grid(va.drop_last(), vb) + label_row(va.last(), vb)
    }
}

/// The pairs and labels of a list of product transitions.
pub open spec fn labelled_pairs(v: Seq<((NodeId, NodeId), Neighbors)>) -> Seq<((u32, u32), NeighborsV)> {
    v.map_values(|e: ((NodeId, NodeId), Neighbors)| ((e.0.0.0, e.0.1.0), e.1@))
}

/// The pair `y` can be reached from a pair of initial nodes.
pub open spec fn product_reachable<V, W>(ga: BaV<V>, gb: BaV<W>, y: (u32, u32)) -> bool {
    exists|p: Seq<(u32, u32)>|
        p.len() > 0 && ga.init.contains(p[0].0) && gb.init.contains(p[0].1) && product_path(ga, gb, p)
            && p.last() == y
}

/// Every pair of an element of `a` with an element of `b`.
fn pairs_of(a: &Vec<NodeId>, b: &Vec<NodeId>) -> (r: Vec<(NodeId, NodeId)>)
    ensures
        pair_ids(r@) == cartesian(id_seq(a@), id_seq(b@)),
{
    let ghost sa = id_seq(a@);
    let ghost sb = id_seq(b@);
    let mut r: Vec<(NodeId, NodeId)> = Vec::new();
    let mut i: usize = 0;
    proof {
        assert(sa.take(0) =~= Seq::<u32>::empty());
        assert(pair_ids(r@) =~= Seq::empty());
    }
    while i < a.len()
        invariant
            i <= a@.len(),
            sa == id_seq(a@),
            sb == id_seq(b@),
            pair_ids(r@) == cartesian(sa.take(i as int), sb),
        decreases a@.len() - i,
    {
        let ghost row_start = pair_ids(r@);
        let mut j: usize = 0;
        proof {
            assert(row_start + sb.take(0).map_values(|y: u32| (sa[i as int], y)) =~= row_start);
        }
        while j < b.len()
            invariant
                i < a@.len(),
                j <= b@.len(),
                sa == id_seq(a@),
                sb == id_seq(b@),
                row_start == cartesian(sa.take(i as int), sb),
                pair_ids(r@) == row_start + sb.take(j as int).map_values(|y: u32| (sa[i as int], y)),
            decreases b@.len() - j,
        {
            let ghost before = r@;
            r.push((a[i], b[j]));
            proof {
                assert(pair_ids(r@) =~= pair_ids(before).push((sa[i as int], sb[j as int])));
                assert(sb.take(j + 1).map_values(|y: u32| (sa[i as int], y)) =~= sb.take(j as int).map_values(
                    |y: u32| (sa[i as int], y),
                ).push((sa[i as int], sb[j as int])));
                assert(pair_ids(r@) =~= row_start + sb.take(j + 1).map_values(|y: u32| (sa[i as int], y)));
            }
            j = j + 1;
        }
        proof {
            assert(sb.take(j as int) =~= sb);
            assert(sa.take(i + 1).drop_last() =~= sa.take(i as int));
            assert(sa.take(i + 1).last() == sa[i as int]);
        }
        i = i + 1;
    }
    proof {
        assert(sa.take(i as int) =~= sa);
    }
    r
}

impl<S: State> Buchi<S> {
    /// The product of the automaton with `other`.
    pub fn product<'a, 'b, T: State>(&'a self, other: &'b Buchi<T>) -> (r: ProductBuchi<'a, 'b, S, T>)
        ensures
            r.a == self,
            r.b == other,
    {
        ProductBuchi::new(self, other)
    }
}

impl<'a, 'b, S: State, T: State> ProductBuchi<'a, 'b, S, T> {
    /// The initial pairs: each initial node of the first automaton with
    /// each initial node of the second.
    pub fn init_states(&self) -> (r: Vec<(NodeId, NodeId)>)
        ensures
            pair_ids(r@) == cartesian(id_seq(self.a.init_states@), id_seq(self.b.init_states@)),
    {
        pairs_of(&self.a.init_states, &self.b.init_states)
    }

    /// The accepting pairs: each accepting node of the first automaton with
    /// each accepting node of the second.
    pub fn accepting_states(&self) -> (r: Vec<(NodeId, NodeId)>)
        ensures
            pair_ids(r@) == cartesian(id_seq(self.a.accepting_states@), id_seq(self.b.accepting_states@)),
    {
        pairs_of(&self.a.accepting_states, &self.b.accepting_states)
    }

    /// The transitions of the pair `x`: for each transition of `x.0` in
    /// order and each transition of `x.1` in order, the pair of targets
    /// labelled by the sets that both labels take, where there is one.
    pub fn adj_labels(&self, x: (NodeId, NodeId)) -> (r: Vec<((NodeId, NodeId), Neighbors)>)
        requires
            self.a.wf(),
            self.b.wf(),
            x.0.0 < self.a@.ids.len(),
            x.1.0 < self.b@.ids.len(),
        ensures
            labelled_pairs(r@) == label_grid(
                entries(self.a.nodes.nodes@[x.0.0 as int].adj@),
                entries(self.b.nodes.nodes@[x.1.0 as int].adj@),
            ),
            forall|i: int| 0 <= i < r@.len() ==> (#[trigger] r@[i]).1.wf(),
    {
        let va = &self.a.nodes.nodes[x.0.0 as usize].adj;
        let vb = &self.b.nodes.nodes[x.1.0 as usize].adj;
        let ghost ea = entries(va@);
        let ghost eb = entries(vb@);
        proof {
            assert(adj_wf(va@));
            assert(adj_wf(vb@));
            assert(ea.take(0) =~= Seq::<(u32, NeighborsV)>::empty());
            assert(labelled_pairs(Seq::<((NodeId, NodeId), Neighbors)>::empty()) =~= Seq::empty());
        }
        let mut r: Vec<((NodeId, NodeId), Neighbors)> = Vec::new();
        let mut i: usize = 0;
        while i < va.len()
            invariant
                i <= va@.len(),
                ea == entries(va@),
                eb == entries(vb@),
                adj_wf(va@),
                adj_wf(vb@),
                labelled_pairs(r@) == label_grid(ea.take(i as int), eb),
                forall|k: int| 0 <= k < r@.len() ==> (#[trigger] r@[k]).1.wf(),
            decreases va@.len() - i,
        {
            let ghost row_start = labelled_pairs(r@);
            let mut j: usize = 0;
            proof {
                assert(eb.take(0) =~= Seq::<(u32, NeighborsV)>::empty());
                assert(row_start + label_row(ea[i as int], eb.take(0)) =~= row_start);
            }
            while j < vb.len()
                invariant
                    i < va@.len(),
                    j <= vb@.len(),
                    ea == entries(va@),
                    eb == entries(vb@),
                    adj_wf(va@),
                    adj_wf(vb@),
                    row_start == label_grid(ea.take(i as int), eb),
                    labelled_pairs(r@) == row_start + label_row(ea[i as int], eb.take(j as int)),
                    forall|k: int| 0 <= k < r@.len() ==> (#[trigger] r@[k]).1.wf(),
                decreases vb@.len() - j,
            {
                proof {
                    assert(va@[i as int].1.wf());
                    assert(vb@[j as int].1.wf());
                    assert(eb.take(j + 1).drop_last() =~= eb.take(j as int));
                    assert(eb.take(j + 1).last() == eb[j as int]);
                }
                let l = va[i].1.intersection(&vb[j].1);
                let ghost before = r@;
                if !l.is_empty() {
                    r.push(((va[i].0, vb[j].0), l));
                    proof {
                        assert(labelled_pairs(r@) =~= labelled_pairs(before).push(
                            ((ea[i as int].0, eb[j as int].0), intersection_of(ea[i as int].1, eb[j as int].1)),
                        ));
                    }
                }
                j = j + 1;
            }
            proof {
                assert(eb.take(j as int) =~= eb);
                assert(ea.take(i + 1).drop_last() =~= ea.take(i as int));
                assert(ea.take(i + 1).last() == ea[i as int]);
            }
            i = i + 1;
        }
        proof {
            assert(ea.take(i as int) =~= ea);
        }
        r
    }
}

/// A reachable pair leads to every successor of it.
proof fn lemma_reach_step<V, W>(ga: BaV<V>, gb: BaV<W>, x: (u32, u32), y: (u32, u32))
    requires
        product_reachable(ga, gb, x),
        product_edge(ga, gb, x, y),
    ensures
        product_reachable(ga, gb, y),
{
    let p = choose|p: Seq<(u32, u32)>|
        p.len() > 0 && ga.init.contains(p[0].0) && gb.init.contains(p[0].1) && product_path(ga, gb, p)
            && p.last() == x;
    let q = p.push(y);
    assert forall|i: int| 0 <= i < q.len() - 1 implies #[trigger] product_edge(ga, gb, q[i], q[i + 1]) by {
        if i < p.len() - 1 {
            assert(product_edge(ga, gb, p[i], p[i + 1]));
        } else {
            assert(q[i] == x);
        }
    }
    assert(q[0] == p[0]);
    assert(q.len() > 0 && ga.init.contains(q[0].0) && gb.init.contains(q[0].1) && product_path(ga, gb, q)
        && q.last() == y);
}

/// An initial pair is reachable.
proof fn lemma_reach_init<V, W>(ga: BaV<V>, gb: BaV<W>, x: (u32, u32))
    requires
        ga.init.contains(x.0),
        gb.init.contains(x.1),
    ensures
        product_reachable(ga, gb, x),
{
    let p = seq![x];
    assert(p.last() == x);
    assert(product_path(ga, gb, p));
}

/// The pairs of `cartesian(a, b)` are those of an element of `a` with one
/// of `b`.
proof fn lemma_cartesian(a: Seq<u32>, b: Seq<u32>, x: (u32, u32))
    ensures
        cartesian(a, b).contains(x) <==> (a.contains(x.0) && b.contains(x.1)),
    decreases a.len(),
{
    if a.len() > 0 {
        lemma_cartesian(a.drop_last(), b, x);
        let row = b.map_values(|y: u32| (a.last(), y));
        let c = cartesian(a.drop_last(), b);
        if cartesian(a, b).contains(x) {
            let k = choose|k: int| 0 <= k < cartesian(a, b).len() && cartesian(a, b)[k] == x;
            if k < c.len() {
                assert(c[k] == x);
                let t = choose|t: int| 0 <= t < a.drop_last().len() && a.drop_last()[t] == x.0;
                assert(a[t] == x.0);
            } else {
                assert(row[k - c.len()] == x);
                assert(a[a.len() - 1] == x.0);
                assert(b[k - c.len()] == x.1);
            }
        }
        if a.contains(x.0) && b.contains(x.1) {
            let t = choose|t: int| 0 <= t < a.len() && a[t] == x.0;
            let u = choose|u: int| 0 <= u < b.len() && b[u] == x.1;
            if t < a.len() - 1 {
                assert(a.drop_last()[t] == x.0);
                let k = choose|k: int| 0 <= k < c.len() && c[k] == x;
                assert(cartesian(a, b)[k] == x);
            } else {
                assert(row[u] == x);
                assert(cartesian(a, b)[c.len() + u] == x);
            }
        }
    }
}

impl<'a, 'b, S: State, T: State> ProductBuchi<'a, 'b, S, T> {
    /// The successors of the pair `x`: the pairs of targets of a transition
    /// of `x.0` and one of `x.1` whose labels share a set.
    pub fn adj_ids(&self, x: (NodeId, NodeId)) -> (r: Vec<(NodeId, NodeId)>)
        requires
            self.a.wf(),
            self.b.wf(),
            ba_refs_valid(self.a@),
            ba_refs_valid(self.b@),
            x.0.0 < self.a@.ids.len(),
            x.1.0 < self.b@.ids.len(),
            self.a@.ids.len() * self.b@.ids.len() < u32::MAX,
        ensures
            forall|k: int|
                0 <= k < r@.len() ==> (#[trigger] r@[k]).0.0 < self.a@.ids.len() && r@[k].1.0 < self.b@.ids.len(),
            forall|y: (u32, u32)|
                y.0 < self.a@.ids.len() && y.1 < self.b@.ids.len() ==> (#[trigger] pair_ids(r@).contains(y)
                    <==> product_edge(self.a@, self.b@, (x.0.0, x.1.0), y)),
    {
        let na = self.a.nodes.nodes.len();
        let nb = self.b.nodes.nodes.len();
        let succ = product_succ(self.a, self.b, x.0.0 as usize, x.1.0 as usize);
        proof {
            assert forall|k: int| 0 <= k < succ@.len() implies (#[trigger] succ@[k]) < u32::MAX by {
                assert(succ@[k] < na * nb);
            }
        }
        let r = to_pairs(&succ, nb);
        proof {
            let nbi = nb as int;
            assert(na == self.a@.ids.len());
            assert(nb == self.b@.ids.len());
            assert(pair_ids(r@).len() == r@.len());
            assert(pair_seq(succ@, nbi).len() == succ@.len());
            assert forall|k: int| 0 <= k < r@.len() implies (#[trigger] r@[k]).0.0 < na && r@[k].1.0 < nb by {
                assert(pair_ids(r@)[k] == pair_seq(succ@, nbi)[k]);
                assert(succ@[k] < na * nb);
                lemma_split(succ@[k] as int, nbi, na as int);
            }
            assert forall|y: (u32, u32)| y.0 < na && y.1 < nb implies (#[trigger] pair_ids(r@).contains(y)
                <==> product_edge(self.a@, self.b@, (x.0.0, x.1.0), y)) by {
                let c = code(y.0 as int, y.1 as int, nbi);
                lemma_pos_bound(y.0 as int, y.1 as int, nbi, na as int);
                lemma_join(c, nbi, y.0 as int, y.1 as int);
                if pair_ids(r@).contains(y) {
                    let k = choose|k: int| 0 <= k < pair_ids(r@).len() && pair_ids(r@)[k] == y;
                    assert(pair_seq(succ@, nbi)[k] == y);
                    let t = succ@[k] as int;
                    lemma_split(t, nbi, na as int);
                    assert(t == c);
                    assert(succ@.contains(c as usize));
                }
                if product_edge(self.a@, self.b@, (x.0.0, x.1.0), y) {
                    assert(succ@.contains(c as usize));
                    let k = choose|k: int| 0 <= k < succ@.len() && succ@[k] == c as usize;
                    assert(pair_seq(succ@, nbi)[k] == y);
                    assert(pair_ids(r@)[k] == y);
                }
            }
        }
        r
    }

    /// The pairs that the initial pairs lead to: each at most once, every
    /// initial pair, and every successor of a pair listed.
    pub fn nodes(&self) -> (r: Vec<(NodeId, NodeId)>)
        requires
            self.a.wf(),
            self.b.wf(),
            ba_refs_valid(self.a@),
            ba_refs_valid(self.b@),
            self.a@.ids.len() * self.b@.ids.len() < u32::MAX,
        ensures
            pair_ids(r@).no_duplicates(),
            forall|k: int| 0 <= k < r@.len() ==> product_reachable(self.a@, self.b@, #[trigger] pair_ids(r@)[k]),
            forall|x: (u32, u32)|
                self.a@.init.contains(x.0) && self.b@.init.contains(x.1) ==> #[trigger] pair_ids(r@).contains(x),
            forall|x: (u32, u32), y: (u32, u32)|
                #[trigger] pair_ids(r@).contains(x) && #[trigger] product_edge(self.a@, self.b@, x, y)
                    ==> pair_ids(r@).contains(y),
    {
        let ghost ga = self.a@;
        let ghost gb = self.b@;
        let na = self.a.nodes.nodes.len();
        let nb = self.b.nodes.nodes.len();
        let n = na * nb;
        let mut seen: Vec<bool> = Vec::new();
        let mut t: usize = 0;
        while t < n
            invariant
                t <= n,
                seen@.len() == t,
                forall|k: int| 0 <= k < t ==> !(#[trigger] seen@[k]),
            decreases n - t,
        {
            seen.push(false);
            t = t + 1;
        }
        proof {
            assert(marked(seen@) == 0) by {
                lemma_marked_zero(seen@);
            }
        }
        let mut nodes: Vec<(NodeId, NodeId)> = Vec::new();
        let mut stack = self.init_states();
        proof {
            assert forall|x: (u32, u32)| ga.init.contains(x.0) && gb.init.contains(x.1) implies #[trigger] pair_ids(
                stack@,
            ).contains(x) by {
                lemma_cartesian(id_seq(self.a.init_states@), id_seq(self.b.init_states@), x);
            }
            assert forall|k: int| 0 <= k < stack@.len() implies (#[trigger] stack@[k]).0.0 < na && stack@[k].1.0 < nb
                && product_reachable(ga, gb, (stack@[k].0.0, stack@[k].1.0)) by {
                let x = pair_ids(stack@)[k];
                assert(pair_ids(stack@).contains(x));
                lemma_cartesian(id_seq(self.a.init_states@), id_seq(self.b.init_states@), x);
                assert(ga.init.contains(x.0));
                assert(gb.init.contains(x.1));
                lemma_reach_init(ga, gb, x);
            }
            assert(pair_ids(nodes@) =~= Seq::empty());
            assert forall|p: int, q: int| 0 <= p < na && 0 <= q < nb implies (#[trigger] seen@[code(
                p,
                q,
                nb as int,
            )] <==> pair_ids(nodes@).contains((p as u32, q as u32))) by {
                lemma_pos_bound(p, q, nb as int, na as int);
            }
        }
        while stack.len() > 0
            invariant
                ga == self.a@,
                gb == self.b@,
                self.a.wf(),
                self.b.wf(),
                ba_refs_valid(ga),
                ba_refs_valid(gb),
                na == ga.ids.len(),
                nb == gb.ids.len(),
                n == na * nb,
                n < u32::MAX,
                seen@.len() == n,
                marked(seen@) == nodes@.len(),
                pair_ids(nodes@).no_duplicates(),
                forall|k: int| 0 <= k < stack@.len() ==> (#[trigger] stack@[k]).0.0 < na && stack@[k].1.0 < nb
                    && product_reachable(ga, gb, (stack@[k].0.0, stack@[k].1.0)),
                forall|k: int| 0 <= k < nodes@.len() ==> (#[trigger] nodes@[k]).0.0 < na && nodes@[k].1.0 < nb
                    && product_reachable(ga, gb, (nodes@[k].0.0, nodes@[k].1.0)),
                forall|p: int, q: int|
                    0 <= p < na && 0 <= q < nb ==> (#[trigger] seen@[code(p, q, nb as int)] <==> pair_ids(
                        nodes@,
                    ).contains((p as u32, q as u32))),
                forall|x: (u32, u32)|
                    ga.init.contains(x.0) && gb.init.contains(x.1) ==> (#[trigger] pair_ids(nodes@).contains(x)
                        || pair_ids(stack@).contains(x)),
                forall|x: (u32, u32), y: (u32, u32)|
                    #[trigger] pair_ids(nodes@).contains(x) && #[trigger] product_edge(ga, gb, x, y) ==> (pair_ids(
                        nodes@,
                    ).contains(y) || pair_ids(stack@).contains(y)),
            decreases n - nodes@.len(), stack@.len(),
        {
            proof {
                lemma_marked_bound(seen@);
            }
            let ghost stack0 = stack@;
            let ghost nodes0 = nodes@;
            let x = match stack.pop() {
                Some(x) => x,
                None => (NodeId(0), NodeId(0)),
            };
            let ghost xk = (x.0.0, x.1.0);
            proof {
                assert(stack0[stack0.len() - 1] == x);
                assert(pair_ids(stack0).last() == xk);
                assert(stack@ =~= stack0.drop_last());
                assert forall|y: (u32, u32)| #[trigger] pair_ids(stack0).contains(y) && y != xk implies pair_ids(
                    stack@,
                ).contains(y) by {
                    let k = choose|k: int| 0 <= k < pair_ids(stack0).len() && pair_ids(stack0)[k] == y;
                    assert(k < stack0.len() - 1);
                    assert(pair_ids(stack@)[k] == y);
                }
                lemma_pos_bound(x.0.0 as int, x.1.0 as int, nb as int, na as int);
            }
            let c = x.0.0 as usize * nb + x.1.0 as usize;
            proof {
                assert(c as int == code(x.0.0 as int, x.1.0 as int, nb as int));
                assert(seen@[code(x.0.0 as int, x.1.0 as int, nb as int)] <==> pair_ids(nodes@).contains(xk));
            }
            if !seen[c] {
                proof {
                    lemma_marked_mark(seen@, c as int);
                    assert(!pair_ids(nodes@).contains(xk));
                }
                seen.set(c, true);
                nodes.push(x);
                proof {
                    assert(pair_ids(nodes@) =~= pair_ids(nodes0).push(xk));
                    assert forall|p: int, q: int| 0 <= p < na && 0 <= q < nb implies (#[trigger] seen@[code(
                        p,
                        q,
                        nb as int,
                    )] <==> pair_ids(nodes@).contains((p as u32, q as u32))) by {
                        let cc = code(p, q, nb as int);
                        lemma_pos_bound(p, q, nb as int, na as int);
                        lemma_join(cc, nb as int, p, q);
                        lemma_join(c as int, nb as int, x.0.0 as int, x.1.0 as int);
                        if pair_ids(nodes@).contains((p as u32, q as u32)) && (p as u32, q as u32) != xk {
                            let k = choose|k: int| 0 <= k < pair_ids(nodes@).len() && pair_ids(nodes@)[k] == (
                                p as u32,
                                q as u32,
                            );
                            assert(pair_ids(nodes0)[k] == (p as u32, q as u32));
                        }
                        if pair_ids(nodes0).contains((p as u32, q as u32)) {
                            let k = choose|k: int| 0 <= k < pair_ids(nodes0).len() && pair_ids(nodes0)[k] == (
                                p as u32,
                                q as u32,
                            );
                            assert(pair_ids(nodes@)[k] == (p as u32, q as u32));
                        }
                        if (p as u32, q as u32) == xk {
                            assert(pair_ids(nodes@)[nodes0.len() as int] == xk);
                        }
                    }
                    assert forall|y: (u32, u32)| #[trigger] pair_ids(nodes0).contains(y) implies pair_ids(
                        nodes@,
                    ).contains(y) by {
                        let k = choose|k: int| 0 <= k < pair_ids(nodes0).len() && pair_ids(nodes0)[k] == y;
                        assert(pair_ids(nodes@)[k] == y);
                    }
                    assert(pair_ids(nodes@)[nodes0.len() as int] == xk);
                }
                let adj = self.adj_ids(x);
                let ghost stack1 = stack@;
                let mut j: usize = 0;
                while j < adj.len()
                    invariant
                        ga == self.a@,
                        gb == self.b@,
                        self.a.wf(),
                        self.b.wf(),
                        ba_refs_valid(ga),
                        ba_refs_valid(gb),
                        na == ga.ids.len(),
                        nb == gb.ids.len(),
                        n == na * nb,
                        n < u32::MAX,
                        seen@.len() == n,
                        j <= adj@.len(),
                        xk.0 < na && xk.1 < nb,
                        product_reachable(ga, gb, xk),
                        forall|k: int|
                            0 <= k < adj@.len() ==> (#[trigger] adj@[k]).0.0 < na && adj@[k].1.0 < nb,
                        forall|y: (u32, u32)|
                            y.0 < na && y.1 < nb ==> (#[trigger] pair_ids(adj@).contains(y) <==> product_edge(
                                ga,
                                gb,
                                xk,
                                y,
                            )),
                        forall|k: int| 0 <= k < stack@.len() ==> (#[trigger] stack@[k]).0.0 < na && stack@[k].1.0
                            < nb && product_reachable(ga, gb, (stack@[k].0.0, stack@[k].1.0)),
                        forall|p: int, q: int|
                            0 <= p < na && 0 <= q < nb ==> (#[trigger] seen@[code(p, q, nb as int)] <==> pair_ids(
                                nodes@,
                            ).contains((p as u32, q as u32))),
                        forall|y: (u32, u32)| #[trigger] pair_ids(stack1).contains(y) ==> pair_ids(stack@).contains(y),
                        forall|k: int|
                            0 <= k < j ==> (pair_ids(nodes@).contains(#[trigger] pair_ids(adj@)[k]) || pair_ids(
                                stack@,
                            ).contains(pair_ids(adj@)[k])),
                    decreases adj@.len() - j,
                {
                    let y = adj[j];
                    let ghost yk = (y.0.0, y.1.0);
                    proof {
                        lemma_pos_bound(y.0.0 as int, y.1.0 as int, nb as int, na as int);
                        assert(pair_ids(adj@)[j as int] == yk);
                        assert(pair_ids(adj@).contains(yk));
                    }
                    let cy = y.0.0 as usize * nb + y.1.0 as usize;
                    proof {
                        assert(cy as int == code(y.0.0 as int, y.1.0 as int, nb as int));
                        assert(seen@[code(y.0.0 as int, y.1.0 as int, nb as int)] <==> pair_ids(nodes@).contains(yk));
                    }
                    let ghost sb = stack@;
                    if !seen[cy] {
                        stack.push(y);
                        proof {
                            lemma_reach_step(ga, gb, xk, yk);
                            assert(pair_ids(stack@) =~= pair_ids(sb).push(yk));
                            assert(pair_ids(stack@)[sb.len() as int] == yk);
                            assert forall|z: (u32, u32)| #[trigger] pair_ids(sb).contains(z) implies pair_ids(
                                stack@,
                            ).contains(z) by {
                                let k = choose|k: int| 0 <= k < pair_ids(sb).len() && pair_ids(sb)[k] == z;
                                assert(pair_ids(stack@)[k] == z);
                            }
                        }
                    }
                    proof {
                        assert forall|k: int| 0 <= k < j + 1 implies (pair_ids(nodes@).contains(
                            #[trigger] pair_ids(adj@)[k],
                        ) || pair_ids(stack@).contains(pair_ids(adj@)[k])) by {
                            if k < j {
                                if pair_ids(sb).contains(pair_ids(adj@)[k]) {
                                    let t = choose|t: int| 0 <= t < pair_ids(sb).len() && pair_ids(sb)[t]
                                        == pair_ids(adj@)[k];
                                    assert(pair_ids(stack@)[t] == pair_ids(adj@)[k]);
                                }
                            } else if seen@[cy as int] {
                                assert(pair_ids(nodes@).contains(yk));
                            } else {
                                assert(pair_ids(stack@)[stack@.len() - 1] == yk);
                            }
                        }
                        assert forall|z: (u32, u32)| #[trigger] pair_ids(stack1).contains(z) implies pair_ids(
                            stack@,
                        ).contains(z) by {
                            assert(pair_ids(sb).contains(z));
                            let t = choose|t: int| 0 <= t < pair_ids(sb).len() && pair_ids(sb)[t] == z;
                            assert(pair_ids(stack@)[t] == z);
                        }
                    }
                    j = j + 1;
                }
                proof {
                    lemma_marked_bound(seen@);
                    assert forall|y: (u32, u32)| #[trigger] product_edge(ga, gb, xk, y) implies (pair_ids(
                        nodes@,
                    ).contains(y) || pair_ids(stack@).contains(y)) by {
                        assert(y.0 < na && y.1 < nb);
                        assert(pair_ids(adj@).contains(y));
                        let k = choose|k: int| 0 <= k < pair_ids(adj@).len() && pair_ids(adj@)[k] == y;
                    }
                    assert forall|z: (u32, u32)|
                        ga.init.contains(z.0) && gb.init.contains(z.1) implies (#[trigger] pair_ids(
                        nodes@,
                    ).contains(z) || pair_ids(stack@).contains(z)) by {
                        if !pair_ids(nodes0).contains(z) {
                            assert(pair_ids(stack0).contains(z));
                            if z != xk {
                                assert(pair_ids(stack1).contains(z));
                            }
                        }
                    }
                    assert forall|z: (u32, u32), y: (u32, u32)|
                        #[trigger] pair_ids(nodes@).contains(z) && #[trigger] product_edge(ga, gb, z, y) implies (
                    pair_ids(nodes@).contains(y) || pair_ids(stack@).contains(y)) by {
                        if z != xk {
                            let k = choose|k: int| 0 <= k < pair_ids(nodes@).len() && pair_ids(nodes@)[k] == z;
                            assert(k < nodes0.len());
                            assert(pair_ids(nodes0)[k] == z);
                            assert(pair_ids(nodes0).contains(z));
                            if !pair_ids(nodes0).contains(y) {
                                assert(pair_ids(stack0).contains(y));
                                if y != xk {
                                    assert(pair_ids(stack1).contains(y));
                                }
                            }
                        }
                    }
                }
            } else {
                proof {
                    assert(pair_ids(nodes@).contains(xk));
                    assert forall|z: (u32, u32)|
                        ga.init.contains(z.0) && gb.init.contains(z.1) implies (#[trigger] pair_ids(
                        nodes@,
                    ).contains(z) || pair_ids(stack@).contains(z)) by {
                        if !pair_ids(nodes0).contains(z) {
                            assert(pair_ids(stack0).contains(z));
                        }
                    }
                    assert forall|z: (u32, u32), y: (u32, u32)|
                        #[trigger] pair_ids(nodes@).contains(z) && #[trigger] product_edge(ga, gb, z, y) implies (
                    pair_ids(nodes@).contains(y) || pair_ids(stack@).contains(y)) by {
                        if !pair_ids(nodes0).contains(y) {
                            assert(pair_ids(stack0).contains(y));
                        }
                    }
                }
            }
        }
        nodes
    }
}

/// No node is marked.
proof fn lemma_marked_zero(m: Seq<bool>)
    requires
        forall|k: int| 0 <= k < m.len() ==> !(#[trigger] m[k]),
    ensures
        marked(m) == 0,
    decreases m.len(),
{
    if m.len() > 0 {
        lemma_marked_zero(m.drop_last());
    }
}

/// A copy of the transitions of a node, in order.
fn copy_adj(v: &Vec<(NodeId, Neighbors)>) -> (r: Vec<(NodeId, Neighbors)>)
    requires
        adj_wf(v@),
    ensures
        entries(r@) == entries(v@),
        adj_wf(r@),
{
    let mut r: Vec<(NodeId, Neighbors)> = Vec::new();
    let mut i: usize = 0;
    while i < v.len()
        invariant
            i <= v@.len(),
            adj_wf(v@),
            entries(r@) == entries(v@.take(i as int)),
            r@.len() == i,
            forall|k: int| 0 <= k < i ==> (#[trigger] r@[k]).0 == v@[k].0 && r@[k].1.wf(),
        decreases v@.len() - i,
    {
        proof {
            assert(v@[i as int].1.wf());
        }
        let l = v[i].1.copy();
        let ghost before = r@;
        r.push((v[i].0, l));
        proof {
            assert(entries(r@) =~= entries(before).push((v@[i as int].0.0, v@[i as int].1@)));
            assert(entries(v@.take(i + 1)) =~= entries(v@.take(i as int)).push((v@[i as int].0.0, v@[i as int].1@)));
            assert(entries(r@) =~= entries(v@.take(i + 1)));
        }
        i = i + 1;
    }
    proof {
        assert(v@.take(i as int) =~= v@);
        assert(adj_wf(r@));
    }
    r
}

/// The targets of the transitions of a node, in order.
fn adj_targets(v: &Vec<(NodeId, Neighbors)>) -> (r: Vec<NodeId>)
    ensures
        id_seq(r@) == entries(v@).map_values(|e: (u32, NeighborsV)| e.0),
{
    let mut r: Vec<NodeId> = Vec::new();
    let mut i: usize = 0;
    while i < v.len()
        invariant
            i <= v@.len(),
            id_seq(r@) == entries(v@.take(i as int)).map_values(|e: (u32, NeighborsV)| e.0),
        decreases v@.len() - i,
    {
        let ghost before = r@;
        r.push(v[i].0);
        proof {
            assert(id_seq(r@) =~= id_seq(before).push(v@[i as int].0.0));
            assert(entries(v@.take(i + 1)) =~= entries(v@.take(i as int)).push((v@[i as int].0.0, v@[i as int].1@)));
            assert(id_seq(r@) =~= entries(v@.take(i + 1)).map_values(|e: (u32, NeighborsV)| e.0));
        }
        i = i + 1;
    }
    proof {
        assert(v@.take(i as int) =~= v@);
    }
    r
}

impl<S: State> Buchi<S> {
    /// The transitions of a node, each target with its label, in order.
    pub fn adj_labels(&self, id: NodeId) -> (r: Vec<(NodeId, Neighbors)>)
        requires
            self.wf(),
            (id.0 as int) < self@.ids.len(),
        ensures
            entries(r@) == entries(self.nodes.nodes@[id.0 as int].adj@),
            adj_wf(r@),
    {
        copy_adj(&self.nodes.nodes[id.0 as usize].adj)
    }

    /// The targets of the transitions of a node, in order.
    pub fn adj_ids(&self, id: NodeId) -> (r: Vec<NodeId>)
        requires
            (id.0 as int) < self@.ids.len(),
        ensures
            id_seq(r@) == entries(self.nodes.nodes@[id.0 as int].adj@).map_values(|e: (u32, NeighborsV)| e.0),
    {
        adj_targets(&self.nodes.nodes[id.0 as usize].adj)
    }
}

impl<S: State> GeneralBuchi<S> {
    /// The transitions of a node, each target with its label, in order.
    pub fn adj_labels(&self, id: NodeId) -> (r: Vec<(NodeId, Neighbors)>)
        requires
            self.wf(),
            (id.0 as int) < self@.ids.len(),
        ensures
            entries(r@) == entries(self.nodes.nodes@[id.0 as int].adj@),
            adj_wf(r@),
    {
        copy_adj(&self.nodes.nodes[id.0 as usize].adj)
    }
}

} // verus!
