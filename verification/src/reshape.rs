//! Reshaping a Büchi automaton: giving every node without transitions a
//! transition to itself, and keeping only the nodes that the initial nodes
//! lead to.
use vstd::prelude::*;

use crate::buchi::{
    adj_map, adj_wf, ba_push, id_seq, lemma_first_state_range, union_of, Alphabet, BaV, Buchi,
    Neighbors, NeighborsV, NodeId, State,
};
use crate::emptiness::{ba_refs_valid, lemma_marked_bound, lemma_marked_mark, marked};
use crate::names::names_copy;
use crate::product::entries;

verus! {

/// The union of the labels of the transitions into `t` from the first `n`
/// nodes; no label at all where there is none.
pub open spec fn incoming_label(adj: Seq<Map<u32, NeighborsV>>, t: u32, n: nat) -> NeighborsV
    decreases n,
{
    if n == 0 {
        NeighborsV::Just(Set::empty())
    } else {
        let prev = incoming_label(adj, t, (n - 1) as nat);
        if adj[n - 1].contains_key(t) {
            union_of(prev, adj[n - 1][t])
        } else {
            prev
        }
    }
}

/// The transitions of node `i` once every node without transitions has one
/// to itself, labelled by what its incoming transitions take.
pub open spec fn self_looped(adj: Seq<Map<u32, NeighborsV>>, i: int) -> Map<u32, NeighborsV> {
    if adj[i] == Map::<u32, NeighborsV>::empty() {
        Map::<u32, NeighborsV>::empty().insert(i as u32, incoming_label(adj, i as u32, adj.len()))
    } else {
        adj[i]
    }
}

/// The automaton where every node without transitions has one to itself.
pub open spec fn with_self_loops<V>(g: BaV<V>) -> BaV<V> {
    BaV { adj: Seq::new(g.adj.len(), |i: int| self_looped(g.adj, i)), ..g }
}

/// A node has no transition exactly where its list of transitions is empty.
proof fn lemma_adj_map_empty(v: Seq<(NodeId, Neighbors)>)
    ensures
        (adj_map(v) == Map::<u32, NeighborsV>::empty()) <==> v.len() == 0,
{
    if v.len() == 0 {
        assert(adj_map(v) =~= Map::<u32, NeighborsV>::empty());
    } else {
        assert(adj_map(v).contains_key(v[0].0.0));
    }
}

impl<S: State> Buchi<S> {
    /// The union of the labels of the transitions into node `t`.
    fn incoming(&self, t: u32) -> (r: Neighbors)
        requires
            self.wf(),
        ensures
            r.wf(),
            r@ == incoming_label(self@.adj, t, self@.adj.len()),
    {
        let ghost g = self@;
        let mut acc = Neighbors::none();
        let mut j: usize = 0;
        while j < self.nodes.nodes.len()
            invariant
                j <= self.nodes.nodes@.len(),
                self.wf(),
                g == self@,
                acc.wf(),
                acc@ == incoming_label(g.adj, t, j as nat),
            decreases self.nodes.nodes@.len() - j,
        {
            let v = &self.nodes.nodes[j].adj;
            let ghost prev = acc@;
            proof {
                assert(adj_wf(v@));
                assert(g.adj[j as int] == adj_map(v@));
            }
            let mut k: usize = 0;
            while k < v.len()
                invariant
                    k <= v@.len(),
                    adj_wf(v@),
                    acc.wf(),
                    prev == incoming_label(g.adj, t, j as nat),
                    forall|k2: int| 0 <= k2 < k && (#[trigger] v@[k2]).0.0 == t ==> acc@ == union_of(prev, v@[k2].1@),
                    (forall|k2: int| 0 <= k2 < k ==> (#[trigger] v@[k2]).0.0 != t) ==> acc@ == prev,
                decreases v@.len() - k,
            {
                if v[k].0.0 == t {
                    proof {
                        assert(v@[k as int].1.wf());
                        assert forall|k2: int| 0 <= k2 < k implies (#[trigger] v@[k2]).0.0 != t by {
                            assert(v@[k2].0 != v@[k as int].0);
                        }
                    }
                    acc = acc.union(&v[k].1);
                    proof {
                        assert forall|k2: int| 0 <= k2 < k + 1 && (#[trigger] v@[k2]).0.0 == t implies acc@
                            == union_of(prev, v@[k2].1@) by {
                            if k2 != k {
                                assert(v@[k2].0 != v@[k as int].0);
                            }
                        }
                    }
                }
                k = k + 1;
            }
            proof {
                let m = adj_map(v@);
                if m.contains_key(t) {
                    let k2 = choose|k2: int| 0 <= k2 < v@.len() && (#[trigger] v@[k2]).0.0 == t;
                    assert(acc@ == union_of(prev, v@[k2].1@));
                } else {
                    assert forall|k2: int| 0 <= k2 < v@.len() implies (#[trigger] v@[k2]).0.0 != t by {
                        if v@[k2].0.0 == t {
                            assert(m.contains_key(t));
                        }
                    }
                }
            }
            j = j + 1;
        }
        acc
    }

    /// Gives every node without transitions a transition to itself,
    /// labelled by the union of the labels of its incoming transitions.
    pub fn add_necessary_self_loops(&mut self)
        requires
            old(self).wf(),
        ensures
            final(self).wf(),
            final(self)@ == with_self_loops(old(self)@),
    {
        let ghost g = self@;
        let n = self.nodes.nodes.len();
        let mut loops: Vec<Option<Neighbors>> = Vec::new();
        let mut i: usize = 0;
        while i < n
            invariant
                i <= n,
                n == g.adj.len(),
                self.wf(),
                self@ == g,
                loops@.len() == i,
                forall|k: int|
                    0 <= k < i ==> ((#[trigger] loops@[k]) is Some <==> g.adj[k] == Map::<u32, NeighborsV>::empty()),
                forall|k: int|
                    0 <= k < i && (#[trigger] loops@[k]) is Some ==> loops@[k]->0.wf() && loops@[k]->0@
                        == incoming_label(g.adj, k as u32, n as nat),
            decreases n - i,
        {
            proof {
                lemma_adj_map_empty(self.nodes.nodes@[i as int].adj@);
            }
            if self.nodes.nodes[i].adj.len() == 0 {
                let l = self.incoming(i as u32);
                loops.push(Some(l));
            } else {
                loops.push(None);
            }
            i = i + 1;
        }
        let mut i: usize = 0;
        proof {
            assert(g.adj =~= Seq::new(n as nat, |k: int| if k < 0 { self_looped(g.adj, k) } else { g.adj[k] }));
        }
        while i < n
            invariant
                i <= n,
                n == g.adj.len(),
                n == g.ids.len(),
                n < u32::MAX,
                self.wf(),
                loops@.len() == n,
                forall|k: int|
                    0 <= k < n ==> ((#[trigger] loops@[k]) is Some <==> g.adj[k] == Map::<u32, NeighborsV>::empty()),
                forall|k: int|
                    0 <= k < n && (#[trigger] loops@[k]) is Some ==> loops@[k]->0.wf() && loops@[k]->0@
                        == incoming_label(g.adj, k as u32, n as nat),
                self@ == (BaV {
                    adj: Seq::new(n as nat, |k: int| if k < i { self_looped(g.adj, k) } else { g.adj[k] }),
                    ..g
                }),
            decreases n - i,
        {
            let ghost before = self@;
            match &loops[i] {
                Some(l) => {
                    let l2 = l.copy();
                    self.add_transition(NodeId(i as u32), NodeId(i as u32), l2);
                },
                None => {},
            }
            proof {
                assert(self@.adj =~= Seq::new(
                    n as nat,
                    |k: int| if k < i + 1 { self_looped(g.adj, k) } else { g.adj[k] },
                ));
            }
            i = i + 1;
        }
        proof {
            assert(self@.adj =~= with_self_loops(g).adj);
        }
    }
}

/// Where a search for the nodes that the initial nodes lead to stands: the
/// nodes still to explore, those met, the number in the new automaton of
/// each node met so far, and the new automaton.
pub struct PruneV<V> {
    pub stack: Seq<u32>,
    pub visited: Set<u32>,
    pub map: Map<u32, u32>,
    pub out: BaV<V>,
}

/// The number in the new automaton of node `x`, the node being added with
/// its state where it has none yet.
pub open spec fn node_for<V>(ids: Seq<V>, s: PruneV<V>, x: u32) -> (PruneV<V>, u32) {
    if s.map.contains_key(x) {
        (s, s.map[x])
    } else {
        let p = ba_push(s.out, ids[x as int]);
        (PruneV { out: p.0, map: s.map.insert(x, p.1), ..s }, p.1)
    }
}

/// Copies the transitions `es`, in order, to the node numbered `nx`: the
/// target gets its number, the transition its label, and a target not met
/// before is met and to be explored.
pub open spec fn copy_edges<V>(ids: Seq<V>, s: PruneV<V>, nx: u32, es: Seq<(u32, NeighborsV)>) -> PruneV<V>
    decreases es.len(),
{
    if es.len() == 0 {
        s
    } else {
        let s1 = copy_edges(ids, s, nx, es.drop_last());
        let e = es.last();
        let p = node_for(ids, s1, e.0);
        let s2 = p.0;
        let out = BaV { adj: s2.out.adj.update(nx as int, s2.out.adj[nx as int].insert(p.1, e.1)), ..s2.out };
        if s2.visited.contains(e.0) {
            PruneV { out, ..s2 }
        } else {
            PruneV { out, visited: s2.visited.insert(e.0), stack: s2.stack.push(e.0), ..s2 }
        }
    }
}

/// One step of the search: the last node to explore is met, gets its
/// number, and has its transitions copied.
pub open spec fn prune_step<V>(ids: Seq<V>, adj: Seq<Seq<(u32, NeighborsV)>>, s: PruneV<V>) -> PruneV<V> {
    if s.stack.len() == 0 {
        s
    } else {
        let x = s.stack.last();
        let s1 = PruneV { stack: s.stack.drop_last(), visited: s.visited.insert(x), ..s };
        let p = node_for(ids, s1, x);
        copy_edges(ids, p.0, p.1, adj[x as int])
    }
}

/// `n` steps of the search.
pub open spec fn prune_iter<V>(ids: Seq<V>, adj: Seq<Seq<(u32, NeighborsV)>>, s: PruneV<V>, n: nat) -> PruneV<V>
    decreases n,
{
    if n == 0 {
        s
    } else {
        prune_iter(ids, adj, prune_step(ids, adj, s), (n - 1) as nat)
    }
}

/// The transitions of each node of `b`, in order.
pub open spec fn adj_entries<S>(b: Buchi<S>) -> Seq<Seq<(u32, NeighborsV)>> {
    b.nodes.nodes@.map_values(|n: crate::buchi::BuchiNode<S>| entries(n.adj@))
}

/// Where the search of `b` ends: the initial nodes are explored, last
/// first, with the number of nodes and initial nodes as the bound on the
/// number of steps.
pub open spec fn prune_search<S: View>(b: Buchi<S>) -> PruneV<S::V> {
    let start = PruneV {
        stack: id_seq(b.init_states@),
        visited: Set::empty(),
        map: Map::empty(),
        out: BaV {
            alphabet: b@.alphabet,
            ids: Seq::empty(),
            adj: Seq::empty(),
            accepting: Set::empty(),
            init: Set::empty(),
        },
    };
    prune_iter(b@.ids, adj_entries(b), start, (b.init_states@.len() + b@.ids.len()) as nat)
}

/// The automaton that pruning `b` gives: the automaton the search built,
/// whose initial nodes are those of the initial nodes of `b` and whose
/// accepting nodes are those of the accepting nodes of `b` that were met.
pub open spec fn pruned_of<S: View>(b: Buchi<S>) -> BaV<S::V> {
    let s = prune_search(b);
    BaV {
        init: Set::new(|k: u32| exists|q: u32| b@.init.contains(q) && s.map.contains_key(q) && s.map[q] == k),
        accepting: Set::new(
            |k: u32| exists|q: u32| b@.accepting.contains(q) && s.map.contains_key(q) && s.map[q] == k,
        ),
        ..s.out
    }
}

/// A search that has nothing left to explore stays where it is.
proof fn lemma_iter_idle<V>(ids: Seq<V>, adj: Seq<Seq<(u32, NeighborsV)>>, s: PruneV<V>, n: nat)
    requires
        s.stack.len() == 0,
    ensures
        prune_iter(ids, adj, s, n) == s,
    decreases n,
{
    if n > 0 {
        lemma_iter_idle(ids, adj, s, (n - 1) as nat);
    }
}

/// The nodes marked in `v`.
pub open spec fn vis_set(v: Seq<bool>) -> Set<u32> {
    Set::new(|i: u32| (i as int) < v.len() && v[i as int])
}

/// The numbers recorded in `m`.
pub open spec fn num_map(m: Seq<Option<u32>>) -> Map<u32, u32> {
    Map::new(|i: u32| (i as int) < m.len() && m[i as int] is Some, |i: u32| m[i as int]->0)
}

/// How many numbers `m` records.
pub open spec fn some_count(m: Seq<Option<u32>>) -> nat
    decreases m.len(),
{
    if m.len() == 0 {
        0
    } else {
        some_count(m.drop_last()) + if m.last() is Some {
            1nat
        } else {
            0nat
        }
    }
}

proof fn lemma_some_count_bound(m: Seq<Option<u32>>)
    ensures
        some_count(m) <= m.len(),
    decreases m.len(),
{
    if m.len() > 0 {
        lemma_some_count_bound(m.drop_last());
    }
}

proof fn lemma_some_count_set(m: Seq<Option<u32>>, i: int, v: u32)
    requires
        0 <= i < m.len(),
        m[i] is None,
    ensures
        some_count(m.update(i, Some(v))) == some_count(m) + 1,
    decreases m.len(),
{
    let m2 = m.update(i, Some(v));
    if i == m.len() - 1 {
        assert(m2.drop_last() =~= m.drop_last());
    } else {
        assert(m2.drop_last() =~= m.drop_last().update(i, Some(v)));
        lemma_some_count_set(m.drop_last(), i, v);
    }
}

/// What holds of the new automaton and the numbers all along the search.
pub open spec fn numbering_ok<V>(out: BaV<V>, m: Seq<Option<u32>>, n: nat) -> bool {
    &&& m.len() == n
    &&& out.ids.len() <= some_count(m)
    &&& out.ids.len() == out.adj.len()
    &&& forall|i: int| 0 <= i < m.len() && (#[trigger] m[i]) is Some ==> m[i]->0 < out.ids.len()
}

impl<S: State> Buchi<S> {
    /// The number in the new automaton of node `x`, adding the node with a
    /// copy of its state where it has none yet.
    fn node_for_exec(&self, out: &mut Buchi<S>, m: &mut Vec<Option<u32>>, x: u32) -> (r: u32)
        requires
            self.wf(),
            old(out).wf(),
            (x as int) < self@.ids.len(),
            numbering_ok(old(out)@, old(m)@, self@.ids.len() as nat),
        ensures
            final(out).wf(),
            numbering_ok(final(out)@, final(m)@, self@.ids.len() as nat),
            ({
                let p = node_for(
                    self@.ids,
                    PruneV { stack: Seq::empty(), visited: Set::empty(), map: num_map(old(m)@), out: old(out)@ },
                    x,
                );
                &&& num_map(final(m)@) == p.0.map
                &&& final(out)@ == p.0.out
                &&& r == p.1
            }),
            (r as int) < final(out)@.ids.len(),
            final(out)@.ids.len() >= old(out)@.ids.len(),
    {
        match m[x as usize] {
            Some(k) => {
                proof {
                    assert(num_map(m@).contains_key(x));
                }
                k
            },
            None => {
                proof {
                    assert(!num_map(m@).contains_key(x));
                    lemma_some_count_bound(m@);
                    assert(some_count(m@.update(x as int, Some(0))) == some_count(m@) + 1) by {
                        lemma_some_count_set(m@, x as int, 0);
                    }
                    lemma_some_count_bound(m@.update(x as int, Some(0)));
                    lemma_first_state_range(out@.ids, self@.ids[x as int]);
                }
                let st = self.id(NodeId(x)).duplicate();
                let ghost before = out@;
                let k = out.push(st);
                let ghost m0 = m@;
                m.set(x as usize, Some(k.0));
                proof {
                    lemma_some_count_set(m0, x as int, k.0);
                    assert(num_map(m@) =~= num_map(m0).insert(x, k.0));
                }
                k.0
            },
        }
    }
}

/// The state of the search held by the executable variables.
pub open spec fn cur<V>(stack: Seq<u32>, visited: Seq<bool>, m: Seq<Option<u32>>, out: BaV<V>) -> PruneV<V> {
    PruneV { stack, visited: vis_set(visited), map: num_map(m), out }
}

impl<S: State> Buchi<S> {
    /// The automaton restricted to the nodes that the initial nodes lead to,
    /// numbered in the order in which a depth-first search from the
    /// initial nodes (the last one first) meets them, with the same
    /// transitions; its initial nodes are those of the initial nodes, its
    /// accepting nodes those of the accepting nodes that were met.
    pub fn pruned(&self) -> (r: Buchi<S>)
        requires
            self.wf(),
            ba_refs_valid(self@),
        ensures
            r.wf(),
            r@ == pruned_of(*self),
    {
        let ghost g = self@;
        let ghost adjs = adj_entries(*self);
        let n = self.nodes.nodes.len();
        let mut out: Buchi<S> = Buchi::new(Alphabet { symbols: names_copy(&self.alphabet.symbols) });
        let mut stack: Vec<u32> = Vec::new();
        let mut k: usize = 0;
        while k < self.init_states.len()
            invariant
                k <= self.init_states@.len(),
                stack@ == id_seq(self.init_states@).take(k as int),
            decreases self.init_states@.len() - k,
        {
            stack.push(self.init_states[k].0);
            proof {
                assert(stack@ =~= id_seq(self.init_states@).take(k + 1));
            }
            k = k + 1;
        }
        proof {
            assert(id_seq(self.init_states@).take(k as int) =~= id_seq(self.init_states@));
        }
        let mut visited: Vec<bool> = Vec::new();
        let mut m: Vec<Option<u32>> = Vec::new();
        let mut t: usize = 0;
        while t < n
            invariant
                t <= n,
                visited@.len() == t,
                m@.len() == t,
                forall|i: int| 0 <= i < t ==> !(#[trigger] visited@[i]),
                forall|i: int| 0 <= i < t ==> (#[trigger] m@[i]) is None,
            decreases n - t,
        {
            visited.push(false);
            m.push(None);
            t = t + 1;
        }
        let ghost start = prune_search(*self);
        let ghost mut rem: nat = (self.init_states@.len() + g.ids.len()) as nat;
        proof {
            assert(marked(visited@) == 0) by {
                lemma_marked_zero(visited@);
            }
            assert(some_count(m@) == 0) by {
                lemma_some_count_zero(m@);
            }
            assert(vis_set(visited@) =~= Set::<u32>::empty());
            assert(num_map(m@) =~= Map::<u32, u32>::empty());
            assert(out@.ids =~= Seq::<S::V>::empty());
            assert(out@.adj =~= Seq::<Map<u32, NeighborsV>>::empty());
            assert(cur(stack@, visited@, m@, out@) == PruneV {
                stack: id_seq(self.init_states@),
                visited: Set::<u32>::empty(),
                map: Map::<u32, u32>::empty(),
                out: BaV {
                    alphabet: g.alphabet,
                    ids: Seq::<S::V>::empty(),
                    adj: Seq::<Map<u32, NeighborsV>>::empty(),
                    accepting: Set::<u32>::empty(),
                    init: Set::<u32>::empty(),
                },
            });
            assert forall|i: int| 0 <= i < stack@.len() implies (#[trigger] stack@[i]) < n by {
                assert(g.init.contains(stack@[i]));
            }
            assert forall|q: u32| g.init.contains(q) implies num_map(m@).contains_key(q) || stack@.contains(q) by {
                let t2 = choose|t2: int| 0 <= t2 < id_seq(self.init_states@).len() && id_seq(self.init_states@)[t2] == q;
                assert(stack@[t2] == q);
            }
        }
        while stack.len() > 0
            invariant
                g == self@,
                adjs == adj_entries(*self),
                self.wf(),
                ba_refs_valid(g),
                n == g.ids.len(),
                out.wf(),
                visited@.len() == n,
                numbering_ok(out@, m@, n as nat),
                forall|i: int| 0 <= i < stack@.len() ==> (#[trigger] stack@[i]) < n,
                prune_iter(g.ids, adjs, cur(stack@, visited@, m@, out@), rem) == start,
                stack@.len() + (n - marked(visited@)) <= rem,
                marked(visited@) <= n,
                out@.init == Set::<u32>::empty(),
                out@.accepting == Set::<u32>::empty(),
                forall|q: u32| g.init.contains(q) ==> num_map(m@).contains_key(q) || stack@.contains(q),
            decreases rem,
        {
            let ghost s0 = cur(stack@, visited@, m@, out@);
            let ghost st0 = stack@;
            let x = match stack.pop() {
                Some(x) => x,
                None => 0,
            };
            proof {
                assert(x == st0.last());
                assert(stack@ =~= st0.drop_last());
                if !visited@[x as int] {
                    lemma_marked_mark(visited@, x as int);
                }
            }
            let ghost v0 = visited@;
            visited.set(x as usize, true);
            proof {
                assert(vis_set(visited@) =~= vis_set(v0).insert(x));
                lemma_marked_bound(visited@);
                if v0[x as int] {
                    assert(visited@ =~= v0);
                }
                assert(marked(visited@) >= marked(v0));
            }
            let ghost s1 = cur(stack@, visited@, m@, out@);
            let nx = self.node_for_exec(&mut out, &mut m, x);
            let ghost s2 = cur(stack@, visited@, m@, out@);
            proof {
                assert(s1 == PruneV { stack: s0.stack.drop_last(), visited: s0.visited.insert(x), ..s0 });
                lemma_node_for_frame(g.ids, s1, x);
                assert(node_for(g.ids, s1, x) == (s2, nx));
                assert(adjs[x as int] == entries(self.nodes.nodes@[x as int].adj@));
                assert(adj_wf(self.nodes.nodes@[x as int].adj@));
                assert(g.adj[x as int] == adj_map(self.nodes.nodes@[x as int].adj@));
            }
            let es = &self.nodes.nodes[x as usize].adj;
            let ghost bound = stack@.len() + (n - marked(visited@));
            let mut j: usize = 0;
            proof {
                assert(entries(es@).take(0) =~= Seq::<(u32, NeighborsV)>::empty());
            }
            while j < es.len()
                invariant
                    g == self@,
                    self.wf(),
                    ba_refs_valid(g),
                    n == g.ids.len(),
                    out.wf(),
                    visited@.len() == n,
                    numbering_ok(out@, m@, n as nat),
                    (nx as int) < out@.ids.len(),
                    (x as int) < n,
                    es@ == self.nodes.nodes@[x as int].adj@,
                    adj_wf(es@),
                    g.adj[x as int] == adj_map(es@),
                    j <= es@.len(),
                    forall|i: int| 0 <= i < stack@.len() ==> (#[trigger] stack@[i]) < n,
                    cur(stack@, visited@, m@, out@) == copy_edges(g.ids, s2, nx, entries(es@).take(j as int)),
                    stack@.len() + (n - marked(visited@)) <= bound,
                    marked(visited@) <= n,
                    out@.init == Set::<u32>::empty(),
                    out@.accepting == Set::<u32>::empty(),
                    forall|q: u32| #[trigger] s2.map.contains_key(q) ==> num_map(m@).contains_key(q),
                    forall|q: u32| #[trigger] s2.stack.contains(q) ==> stack@.contains(q),
                decreases es@.len() - j,
            {
                let y = es[j].0.0;
                proof {
                    assert(entries(es@).take(j + 1).drop_last() =~= entries(es@).take(j as int));
                    assert(entries(es@).take(j + 1).last() == (y, es@[j as int].1@));
                    assert(adj_map(es@).contains_key(y));
                    assert(g.adj[x as int].contains_key(y));
                    assert((y as int) < n);
                    assert(es@[j as int].1.wf());
                }
                let ghost sa = cur(stack@, visited@, m@, out@);
                let na = self.node_for_exec(&mut out, &mut m, y);
                proof {
                    lemma_node_for_frame(g.ids, sa, y);
                }
                let ghost sb = cur(stack@, visited@, m@, out@);
                let label = es[j].1.copy();
                out.add_transition(NodeId(nx), NodeId(na), label);
                if !visited[y as usize] {
                    proof {
                        assert(!vis_set(visited@).contains(y));
                        lemma_marked_mark(visited@, y as int);
                    }
                    let ghost v1 = visited@;
                    visited.set(y as usize, true);
                    let ghost st1 = stack@;
                    stack.push(y);
                    proof {
                        lemma_marked_bound(visited@);
                        assert(vis_set(visited@) =~= vis_set(v1).insert(y));
                        assert forall|q: u32| #[trigger] s2.stack.contains(q) implies stack@.contains(q) by {
                            assert(st1.contains(q));
                            let t2 = choose|t2: int| 0 <= t2 < st1.len() && st1[t2] == q;
                            assert(stack@[t2] == q);
                        }
                    }
                } else {
                    proof {
                        assert(vis_set(visited@).contains(y));
                    }
                }
                proof {
                    assert(cur(stack@, visited@, m@, out@) == copy_edges(
                        g.ids,
                        s2,
                        nx,
                        entries(es@).take(j + 1),
                    ));
                }
                j = j + 1;
            }
            proof {
                assert(entries(es@).take(j as int) =~= entries(es@));
                assert(prune_step(g.ids, adjs, s0) == cur(stack@, visited@, m@, out@));
                assert(rem > 0);
                rem = (rem - 1) as nat;
                assert forall|q: u32| g.init.contains(q) implies num_map(m@).contains_key(q) || stack@.contains(q) by {
                    if q == x {
                        assert(s2.map.contains_key(x));
                    } else if !s0.map.contains_key(q) {
                        assert(st0.contains(q));
                        let t2 = choose|t2: int| 0 <= t2 < st0.len() && st0[t2] == q;
                        assert(t2 < st0.len() - 1);
                        assert(s2.stack[t2] == q);
                        assert(s2.stack.contains(q));
                    } else {
                        assert(s2.map.contains_key(q));
                    }
                }
            }
        }
        proof {
            lemma_iter_idle(g.ids, adjs, cur(stack@, visited@, m@, out@), rem);
        }
        // the initial and accepting nodes
        let ghost fin = cur(stack@, visited@, m@, out@);
        let ghost ids_init = id_seq(self.init_states@);
        let mut i: usize = 0;
        proof {
            assert(out@.init =~= Set::<u32>::empty());
        }
        while i < self.init_states.len()
            invariant
                g == self@,
                ids_init == id_seq(self.init_states@),
                i <= self.init_states@.len(),
                out.wf(),
                num_map(m@) == fin.map,
                numbering_ok(out@, m@, n as nat),
                n == g.ids.len(),
                out@ == (BaV { init: out@.init, ..fin.out }),
                forall|q: u32| g.init.contains(q) ==> #[trigger] num_map(m@).contains_key(q),
                forall|kk: u32|
                    out@.init.contains(kk) <==> exists|t2: int| 0 <= t2 < i && #[trigger] fin.map[ids_init[t2]] == kk,
            decreases self.init_states@.len() - i,
        {
            let q = self.init_states[i].0;
            proof {
                assert(ids_init[i as int] == q);
                assert(g.init.contains(q));
                assert(num_map(m@).contains_key(q));
            }
            let kq = match m[q as usize] {
                Some(kq) => kq,
                None => 0,
            };
            proof {
                assert(kq == fin.map[q]);
                assert(fin.map[ids_init[i as int]] == kq);
            }
            let ghost init0 = out@.init;
            out.add_init_state(NodeId(kq));
            proof {
                assert forall|kk: u32| out@.init.contains(kk) <==> exists|t2: int|
                    0 <= t2 < i + 1 && #[trigger] fin.map[ids_init[t2]] == kk by {
                    if kk == kq {
                        assert(fin.map[ids_init[i as int]] == kk);
                    }
                    if out@.init.contains(kk) && kk != kq {
                        assert(init0.contains(kk));
                        let t2 = choose|t2: int| 0 <= t2 < i && #[trigger] fin.map[ids_init[t2]] == kk;
                    }
                    if exists|t2: int| 0 <= t2 < i + 1 && #[trigger] fin.map[ids_init[t2]] == kk {
                        let t2 = choose|t2: int| 0 <= t2 < i + 1 && #[trigger] fin.map[ids_init[t2]] == kk;
                        if t2 < i {
                            assert(exists|t3: int| 0 <= t3 < i && #[trigger] fin.map[ids_init[t3]] == kk);
                        }
                    }
                }
            }
            i = i + 1;
        }
        let ghost ids_acc = id_seq(self.accepting_states@);
        let ghost out_init = out@.init;
        let mut a: usize = 0;
        proof {
            assert(out@.accepting =~= Set::<u32>::empty());
        }
        while a < self.accepting_states.len()
            invariant
                g == self@,
                ids_acc == id_seq(self.accepting_states@),
                a <= self.accepting_states@.len(),
                out.wf(),
                num_map(m@) == fin.map,
                m@.len() == n,
                n == g.ids.len(),
                out@ == (BaV { init: out_init, accepting: out@.accepting, ..fin.out }),
                forall|kk: u32|
                    out@.accepting.contains(kk) <==> exists|t2: int|
                        0 <= t2 < a && fin.map.contains_key(ids_acc[t2]) && #[trigger] fin.map[ids_acc[t2]] == kk,
            decreases self.accepting_states@.len() - a,
        {
            let q = self.accepting_states[a].0;
            proof {
                assert(ids_acc[a as int] == q);
                assert(g.accepting.contains(q));
            }
            let ghost acc0 = out@.accepting;
            if (q as usize) < m.len() {
                match m[q as usize] {
                    Some(kq) => {
                        out.add_accepting_state(NodeId(kq));
                    },
                    None => {},
                }
            }
            proof {
                assert(fin.map.contains_key(q) <==> ((q as int) < m@.len() && m@[q as int] is Some));
                assert forall|kk: u32| out@.accepting.contains(kk) <==> exists|t2: int|
                    0 <= t2 < a + 1 && fin.map.contains_key(ids_acc[t2]) && #[trigger] fin.map[ids_acc[t2]] == kk by {
                    if out@.accepting.contains(kk) && !acc0.contains(kk) {
                        assert(ids_acc[a as int] == q);
                        assert(fin.map[q] == kk);
                    }
                    if exists|t2: int| 0 <= t2 < a + 1 && fin.map.contains_key(ids_acc[t2]) && #[trigger] fin.map[ids_acc[t2]] == kk {
                        let t2 = choose|t2: int| 0 <= t2 < a + 1 && fin.map.contains_key(ids_acc[t2]) && #[trigger] fin.map[ids_acc[t2]] == kk;
                        if t2 < a {
                            assert(acc0.contains(kk));
                        }
                    }
                }
            }
            a = a + 1;
        }
        proof {
            assert(fin == start);
            let pb = pruned_of(*self);
            assert(out@.init =~= pb.init) by {
                assert forall|kk: u32| out@.init.contains(kk) <==> pb.init.contains(kk) by {
                    if out@.init.contains(kk) {
                        let t2 = choose|t2: int| 0 <= t2 < ids_init.len() && #[trigger] fin.map[ids_init[t2]] == kk;
                        let q = ids_init[t2];
                        assert(g.init.contains(q));
                    }
                    if pb.init.contains(kk) {
                        let q = choose|q: u32| g.init.contains(q) && fin.map.contains_key(q) && fin.map[q] == kk;
                        let t2 = choose|t2: int| 0 <= t2 < ids_init.len() && ids_init[t2] == q;
                        assert(fin.map[ids_init[t2]] == kk);
                    }
                }
            }
            assert(out@.accepting =~= pb.accepting) by {
                assert forall|kk: u32| out@.accepting.contains(kk) <==> pb.accepting.contains(kk) by {
                    if out@.accepting.contains(kk) {
                        let t2 = choose|t2: int|
                            0 <= t2 < ids_acc.len() && fin.map.contains_key(ids_acc[t2]) && #[trigger] fin.map[ids_acc[t2]] == kk;
                        let q = ids_acc[t2];
                        assert(g.accepting.contains(q));
                    }
                    if pb.accepting.contains(kk) {
                        let q = choose|q: u32| g.accepting.contains(q) && fin.map.contains_key(q) && fin.map[q] == kk;
                        let t2 = choose|t2: int| 0 <= t2 < ids_acc.len() && ids_acc[t2] == q;
                        assert(fin.map[ids_acc[t2]] == kk);
                    }
                }
            }
        }
        out
    }
}

/// `node_for` changes only the numbers and the new automaton.
proof fn lemma_node_for_frame<V>(ids: Seq<V>, s: PruneV<V>, x: u32)
    ensures
        ({
            let p = node_for(ids, s, x);
            let q = node_for(
                ids,
                PruneV { stack: Seq::empty(), visited: Set::empty(), map: s.map, out: s.out },
                x,
            );
            p.0 == PruneV { stack: s.stack, visited: s.visited, map: q.0.map, out: q.0.out } && p.1 == q.1
        }),
{
}

proof fn lemma_marked_zero(m: Seq<bool>)
    requires
        forall|k: int| 0 <= k < m.len() ==> !(#[trigger] m[k]),
    ensures
        marked(m) == 0,
    decreases m.len(),
{
    if m.len() > 0 {
        lemma_marked_zero(m.drop_last());
    }
}

proof fn lemma_some_count_zero(m: Seq<Option<u32>>)
    requires
        forall|k: int| 0 <= k < m.len() ==> (#[trigger] m[k]) is None,
    ensures
        some_count(m) == 0,
    decreases m.len(),
{
    if m.len() > 0 {
        lemma_some_count_zero(m.drop_last());
    }
}

} // verus!
