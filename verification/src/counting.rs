//! The Büchi automaton of a generalized Büchi automaton, by the counting
//! construction: with accepting sets `F0, ..., Fk-1`, the nodes are `k`
//! copies of the nodes, a transition out of a node of copy `c` leads to copy
//! `c + 1 (mod k)` where the node is in `Fc` and stays in copy `c` else, the
//! initial nodes are those of copy 0, and so are the accepting ones, taken
//! from `F0`.
use vstd::prelude::*;
use vstd::arithmetic::div_mod::{
    lemma_div_pos_is_pos, lemma_fundamental_div_mod, lemma_fundamental_div_mod_converse,
    lemma_mod_pos_bound,
};

use crate::buchi::{
    adj_map, adj_wf, ba_push, first_state, id_seq, id_set, ids_increasing, lemma_first_state_absent,
    lemma_first_state_found, lemma_first_state_range, Alphabet, BaV, Buchi, BuchiNode, GbaV,
    GeneralBuchi, Neighbors, NeighborsV, NodeId, State,
};
use crate::names::{names, names_copy};

verus! {

/// Every node that the automaton names, as initial, accepting or target of
/// a transition, is one of its nodes.
pub open spec fn refs_valid<S>(g: GbaV<S>) -> bool {
    &&& forall|q: u32| #[trigger] g.init.contains(q) ==> q < g.ids.len()
    &&& forall|c: int, q: u32|
        0 <= c < g.accepting.len() && #[trigger] g.accepting[c].contains(q) ==> q < g.ids.len()
    &&& forall|i: int, q: u32| 0 <= i < g.adj.len() && #[trigger] g.adj[i].contains_key(q) ==> q < g.ids.len()
}

/// The copy that a transition out of node `i` of copy `c` leads to.
pub open spec fn next_copy(acc: Seq<Set<u32>>, c: int, i: int) -> int {
    if acc[c].contains(i as u32) {
        (c + 1) % (acc.len() as int)
    } else {
        c
    }
}

/// The transitions `m` of a node, their targets moved to copy `c` of `n`
/// nodes.
pub open spec fn shifted(m: Map<u32, NeighborsV>, n: int, c: int) -> Map<u32, NeighborsV> {
    Map::new(
        |t: u32| c * n <= t < c * n + n && m.contains_key((t - c * n) as u32),
        |t: u32| m[(t - c * n) as u32],
    )
}

/// `r` is the counting construction on `g` with the accepting sets `acc`:
/// node `t` is node `t % n` of copy `t / n`.
pub open spec fn is_counting<S>(g: GbaV<S>, acc: Seq<Set<u32>>, r: BaV<(S, usize)>) -> bool {
    let n = g.ids.len() as int;
    let k = acc.len() as int;
    &&& r.alphabet == g.alphabet
    &&& r.ids.len() == k * n
    &&& r.adj.len() == k * n
    &&& forall|t: int| 0 <= t < k * n ==> #[trigger] r.ids[t] == (g.ids[t % n], (t / n) as usize)
    &&& forall|t: int|
        0 <= t < k * n ==> #[trigger] r.adj[t] == shifted(g.adj[t % n], n, next_copy(acc, t / n, t % n))
    &&& r.accepting == acc[0]
    &&& r.init == g.init
}

/// The accepting sets the construction uses: those of `g`, or the set of
/// all its nodes where it has none.
pub open spec fn counting_sets<S>(g: GbaV<S>) -> Seq<Set<u32>> {
    if g.accepting.len() == 0 {
        seq![Set::new(|q: u32| q < g.ids.len())]
    } else {
        g.accepting
    }
}

pub proof fn lemma_split(t: int, n: int, k: int)
    requires
        0 <= t < k * n,
        0 < n,
    ensures
        0 <= t % n < n,
        0 <= t / n < k,
        t == (t / n) * n + t % n,
{
    lemma_fundamental_div_mod(t, n);
    lemma_mod_pos_bound(t, n);
    lemma_div_pos_is_pos(t, n);
    let q = t / n;
    let r = t % n;
    assert(t == q * n + r) by (nonlinear_arith)
        requires
            t == n * q + r,
    ;
    assert(q < k) by (nonlinear_arith)
        requires
            t == q * n + r,
            r >= 0,
            t < k * n,
            n > 0,
            q >= 0,
    ;
}

pub proof fn lemma_join(t: int, n: int, c: int, i: int)
    requires
        0 <= i < n,
        t == c * n + i,
    ensures
        t / n == c,
        t % n == i,
{
    lemma_fundamental_div_mod_converse(t, n, c, i);
}

pub proof fn lemma_pos_bound(c: int, i: int, n: int, k: int)
    requires
        0 <= c < k,
        0 <= i < n,
    ensures
        0 <= c * n + i < k * n,
{
    assert(0 <= c * n + i < k * n) by (nonlinear_arith)
        requires
            0 <= c < k,
            0 <= i < n,
    ;
}

/// Node `t` of `ids` is node `t % n` of copy `t / n`.
pub open spec fn laid_out<S>(ids: Seq<(S, usize)>, gids: Seq<S>) -> bool {
    forall|t: int| 0 <= t < ids.len() ==> #[trigger] ids[t] == (gids[t % (gids.len() as int)], (t / (gids.len() as int)) as usize)
}

/// Where the copies are laid out, node `i` of copy `c` is at `c * n + i`.
proof fn lemma_laid_out_find<S>(ids: Seq<(S, usize)>, gids: Seq<S>, c: int, i: int)
    requires
        laid_out(ids, gids),
        ids.no_duplicates(),
        0 <= i < gids.len(),
        0 <= c,
        c * gids.len() + i < ids.len(),
        c <= usize::MAX,
    ensures
        first_state(ids, (gids[i], c as usize)) == c * gids.len() + i,
{
    let n = gids.len() as int;
    let t = c * n + i;
    lemma_join(t, n, c, i);
    assert(ids[t] == (gids[i], c as usize));
    lemma_first_state_found(ids, (gids[i], c as usize), t);
}

/// The `k` copies of the nodes, without transitions.
fn counting_nodes<S: State>(g: &GeneralBuchi<S>, k: usize) -> (r: Buchi<(S, usize)>)
    requires
        g.wf(),
        k > 0,
        k * g@.ids.len() + 1 < u32::MAX,
    ensures
        r.wf(),
        r@.alphabet == g@.alphabet,
        r@.ids.len() == k * g@.ids.len(),
        laid_out(r@.ids, g@.ids),
        forall|t: int| 0 <= t < r@.adj.len() ==> #[trigger] r@.adj[t] == Map::<u32, NeighborsV>::empty(),
        r@.adj.len() == r@.ids.len(),
        r@.init == Set::<u32>::empty(),
        r@.accepting == Set::<u32>::empty(),
{
    let ghost gv = g@;
    let n = g.nodes.nodes.len();
    let alphabet = Alphabet { symbols: names_copy(&g.alphabet.symbols) };
    let mut ba: Buchi<(S, usize)> = Buchi::new(alphabet);
    let mut c: usize = 0;
    while c < k
        invariant
            c <= k,
            gv == g@,
            g.wf(),
            n == gv.ids.len(),
            k * n + 1 < u32::MAX,
            ba.wf(),
            ba@.alphabet == gv.alphabet,
            ba@.ids.len() == c * n,
            ba@.adj.len() == ba@.ids.len(),
            laid_out(ba@.ids, gv.ids),
            forall|t: int| 0 <= t < ba@.adj.len() ==> #[trigger] ba@.adj[t] == Map::<u32, NeighborsV>::empty(),
            ba@.init == Set::<u32>::empty(),
            ba@.accepting == Set::<u32>::empty(),
        decreases k - c,
    {
        let mut i: usize = 0;
        while i < n
            invariant
                c < k,
                i <= n,
                gv == g@,
                g.wf(),
                n == gv.ids.len(),
                k * n + 1 < u32::MAX,
                ba.wf(),
                ba@.alphabet == gv.alphabet,
                ba@.ids.len() == c * n + i,
                ba@.adj.len() == ba@.ids.len(),
                laid_out(ba@.ids, gv.ids),
                forall|t: int| 0 <= t < ba@.adj.len() ==> #[trigger] ba@.adj[t] == Map::<u32, NeighborsV>::empty(),
                ba@.init == Set::<u32>::empty(),
                ba@.accepting == Set::<u32>::empty(),
            decreases n - i,
        {
            let st = (g.nodes.nodes[i].id.duplicate(), c);
            let ghost sv = st@;
            let ghost before = ba@;
            proof {
                lemma_pos_bound(c as int, i as int, n as int, k as int);
                assert(sv == (gv.ids[i as int], c));
                assert(!before.ids.contains(sv)) by {
                    if before.ids.contains(sv) {
                        let t = choose|t: int| 0 <= t < before.ids.len() && before.ids[t] == sv;
                        assert((c + 1) * n == c * n + n) by (nonlinear_arith);
                        lemma_split(t, n as int, (c + 1) as int);
                        assert(before.ids[t] == (gv.ids[t % (n as int)], (t / (n as int)) as usize));
                        assert(gv.ids[t % (n as int)] == gv.ids[i as int]);
                        assert(t % (n as int) == i) by {
                            if t % (n as int) != i as int {
                                assert(gv.ids.no_duplicates());
                            }
                        }
                        assert(t / (n as int) == c);
                    }
                }
                lemma_first_state_range(before.ids, sv);
                if first_state(before.ids, sv) >= 0 {
                    assert(before.ids.contains(sv));
                }
            }
            let id = ba.push(st);
            proof {
                let t0 = c * n + i;
                lemma_join(t0 as int, n as int, c as int, i as int);
                assert(ba@.ids == before.ids.push(sv));
                assert forall|t: int| 0 <= t < ba@.ids.len() implies #[trigger] ba@.ids[t] == (
                    gv.ids[t % (gv.ids.len() as int)],
                    (t / (gv.ids.len() as int)) as usize,
                ) by {
                    if t < before.ids.len() {
                        assert(ba@.ids[t] == before.ids[t]);
                    }
                }
            }
            i = i + 1;
        }
        proof {
            assert((c + 1) * n == c * n + n) by (nonlinear_arith);
        }
        c = c + 1;
    }
    ba
}

/// Marks node `q` of copy 0, for each `q` of `qs`, as initial.
fn mark_initial<S: State>(ba: &mut Buchi<(S, usize)>, g: &GeneralBuchi<S>, qs: &Vec<NodeId>)
    requires
        old(ba).wf(),
        g.wf(),
        laid_out(old(ba)@.ids, g@.ids),
        g@.ids.len() <= old(ba)@.ids.len(),
        old(ba)@.ids.len() + 1 < u32::MAX,
        forall|j: int| 0 <= j < qs@.len() ==> (#[trigger] qs@[j]).0 < g@.ids.len(),
    ensures
        final(ba).wf(),
        final(ba)@ == (BaV { init: old(ba)@.init.union(id_set(qs@)), ..old(ba)@ }),
{
    let ghost base = ba@;
    let mut j: usize = 0;
    proof {
        assert(base.init.union(id_seq(qs@.take(0)).to_set()) =~= base.init);
    }
    while j < qs.len()
        invariant
            j <= qs@.len(),
            g.wf(),
            ba.wf(),
            laid_out(base.ids, g@.ids),
            g@.ids.len() <= base.ids.len(),
            base.ids.len() + 1 < u32::MAX,
            forall|t: int| 0 <= t < qs@.len() ==> (#[trigger] qs@[t]).0 < g@.ids.len(),
            ba@ == (BaV { init: base.init.union(id_seq(qs@.take(j as int)).to_set()), ..base }),
        decreases qs@.len() - j,
    {
        let q = qs[j];
        let st = (g.id(q).duplicate(), 0usize);
        proof {
            lemma_laid_out_find(base.ids, g@.ids, 0, q.0 as int);
        }
        let id = ba.push(st);
        ba.add_init_state(id);
        proof {
            assert(id_seq(qs@.take(j + 1)) =~= id_seq(qs@.take(j as int)).push(q.0));
            id_seq(qs@.take(j as int)).lemma_push_to_set_commute(q.0);
            assert(ba@.init =~= base.init.union(id_seq(qs@.take(j + 1)).to_set()));
        }
        j = j + 1;
    }
    proof {
        assert(qs@.take(j as int) =~= qs@);
    }
}

/// Marks node `q` of copy 0, for each `q` of `qs`, as accepting.
fn mark_accepting<S: State>(ba: &mut Buchi<(S, usize)>, g: &GeneralBuchi<S>, qs: &Vec<NodeId>)
    requires
        old(ba).wf(),
        g.wf(),
        laid_out(old(ba)@.ids, g@.ids),
        g@.ids.len() <= old(ba)@.ids.len(),
        old(ba)@.ids.len() + 1 < u32::MAX,
        forall|j: int| 0 <= j < qs@.len() ==> (#[trigger] qs@[j]).0 < g@.ids.len(),
    ensures
        final(ba).wf(),
        final(ba)@ == (BaV { accepting: old(ba)@.accepting.union(id_set(qs@)), ..old(ba)@ }),
{
    let ghost base = ba@;
    let mut j: usize = 0;
    proof {
        assert(base.accepting.union(id_seq(qs@.take(0)).to_set()) =~= base.accepting);
    }
    while j < qs.len()
        invariant
            j <= qs@.len(),
            g.wf(),
            ba.wf(),
            laid_out(base.ids, g@.ids),
            g@.ids.len() <= base.ids.len(),
            base.ids.len() + 1 < u32::MAX,
            forall|t: int| 0 <= t < qs@.len() ==> (#[trigger] qs@[t]).0 < g@.ids.len(),
            ba@ == (BaV { accepting: base.accepting.union(id_seq(qs@.take(j as int)).to_set()), ..base }),
        decreases qs@.len() - j,
    {
        let q = qs[j];
        let st = (g.id(q).duplicate(), 0usize);
        proof {
            lemma_laid_out_find(base.ids, g@.ids, 0, q.0 as int);
        }
        let id = ba.push(st);
        ba.add_accepting_state(id);
        proof {
            assert(id_seq(qs@.take(j + 1)) =~= id_seq(qs@.take(j as int)).push(q.0));
            id_seq(qs@.take(j as int)).lemma_push_to_set_commute(q.0);
            assert(ba@.accepting =~= base.accepting.union(id_seq(qs@.take(j + 1)).to_set()));
        }
        j = j + 1;
    }
    proof {
        assert(qs@.take(j as int) =~= qs@);
    }
}

proof fn lemma_adj_map_take(v: Seq<(NodeId, Neighbors)>, e: int)
    requires
        adj_wf(v),
        0 <= e < v.len(),
    ensures
        adj_map(v.take(e + 1)) == adj_map(v.take(e)).insert(v[e].0.0, v[e].1@),
{
    let a = v.take(e);
    let b = v.take(e + 1);
    assert forall|k: u32| #[trigger] adj_map(b).contains_key(k) == adj_map(a).insert(v[e].0.0, v[e].1@).contains_key(k) by {
        if adj_map(b).contains_key(k) {
            let t = choose|t: int| 0 <= t < b.len() && (#[trigger] b[t]).0.0 == k;
            if t < e {
                assert(a[t].0.0 == k);
            }
        }
        if adj_map(a).contains_key(k) {
            let t = choose|t: int| 0 <= t < a.len() && (#[trigger] a[t]).0.0 == k;
            assert(b[t].0.0 == k);
        }
        if k == v[e].0.0 {
            assert(b[e].0.0 == k);
        }
    }
    assert forall|k: u32| #[trigger] adj_map(b).contains_key(k) implies adj_map(b)[k] == adj_map(a).insert(
        v[e].0.0,
        v[e].1@,
    )[k] by {
        let t = choose|t: int| 0 <= t < b.len() && (#[trigger] b[t]).0.0 == k;
        if k == v[e].0.0 {
            if t != e {
                assert(v[t].0 != v[e].0);
            }
        } else {
            let t2 = choose|t2: int| 0 <= t2 < a.len() && (#[trigger] a[t2]).0.0 == k;
            assert(b[t2].0.0 == k);
            if t != t2 {
                assert(v[t].0 != v[t2].0);
            }
        }
    }
    assert(adj_map(b) =~= adj_map(a).insert(v[e].0.0, v[e].1@));
}

proof fn lemma_shift_insert(m: Map<u32, NeighborsV>, n: int, j: int, a: u32, l: NeighborsV)
    requires
        0 <= j,
        a < n,
        j * n + n < u32::MAX,
    ensures
        shifted(m.insert(a, l), n, j) == shifted(m, n, j).insert((j * n + a) as u32, l),
{
    assert(shifted(m.insert(a, l), n, j) =~= shifted(m, n, j).insert((j * n + a) as u32, l));
}

/// Adds the transitions out of node `i` of copy `c`: each transition of
/// node `i` of `g`, to the same target in the copy that follows from `c`.
fn counting_transitions<S: State>(
    ba: &mut Buchi<(S, usize)>,
    g: &GeneralBuchi<S>,
    acc: &Vec<Vec<NodeId>>,
    c: usize,
    i: usize,
)
    requires
        old(ba).wf(),
        g.wf(),
        refs_valid(g@),
        c < acc@.len(),
        i < g@.ids.len(),
        forall|cc: int| 0 <= cc < acc@.len() ==> ids_increasing(#[trigger] acc@[cc]@),
        forall|cc: int, q: u32|
            0 <= cc < acc@.len() && #[trigger] id_set(acc@[cc]@).contains(q) ==> q < g@.ids.len(),
        old(ba)@.ids.len() == acc@.len() * g@.ids.len(),
        old(ba)@.adj.len() == old(ba)@.ids.len(),
        laid_out(old(ba)@.ids, g@.ids),
        old(ba)@.adj[c * g@.ids.len() + i] == Map::<u32, NeighborsV>::empty(),
        acc@.len() * g@.ids.len() + 1 < u32::MAX,
    ensures
        final(ba).wf(),
        final(ba)@ == (BaV {
            adj: old(ba)@.adj.update(
                c * g@.ids.len() + i,
                shifted(
                    g@.adj[i as int],
                    g@.ids.len() as int,
                    next_copy(acc@.map_values(|v: Vec<NodeId>| id_set(v@)), c as int, i as int),
                ),
            ),
            ..old(ba)@
        }),
{
    let ghost gv = g@;
    let ghost sets = acc@.map_values(|v: Vec<NodeId>| id_set(v@));
    let n = g.nodes.nodes.len();
    let k = acc.len();
    let ghost p = c * n + i;
    proof {
        lemma_pos_bound(c as int, i as int, n as int, k as int);
    }
    let mut found = false;
    let mut t: usize = 0;
    while t < acc[c].len()
        invariant
            c < acc@.len(),
            i < n,
            n == gv.ids.len(),
            gv == g@,
            g.wf(),
            t <= acc@[c as int]@.len(),
            forall|cc: int, q: u32|
                0 <= cc < acc@.len() && #[trigger] id_set(acc@[cc]@).contains(q) ==> q < gv.ids.len(),
            found == exists|u: int| 0 <= u < t && (#[trigger] acc@[c as int]@[u]).0 == i,
        decreases acc@[c as int]@.len() - t,
    {
        let m = acc[c][t];
        proof {
            assert(id_seq(acc@[c as int]@)[t as int] == m.0);
            assert(id_set(acc@[c as int]@).contains(m.0));
        }
        if g.id(m).same(g.id(NodeId(i as u32))) {
            proof {
                if m.0 != i {
                    assert(gv.ids[m.0 as int] != gv.ids[i as int]);
                }
            }
            found = true;
        } else {
            proof {
                if m.0 == i {
                    assert(gv.ids[m.0 as int] == gv.ids[i as int]);
                }
            }
        }
        t = t + 1;
    }
    proof {
        assert(found == sets[c as int].contains(i as u32)) by {
            assert(sets[c as int] == id_set(acc@[c as int]@));
            if found {
                let u = choose|u: int| 0 <= u < t && (#[trigger] acc@[c as int]@[u]).0 == i;
                assert(id_seq(acc@[c as int]@)[u] == i);
            }
            if sets[c as int].contains(i as u32) {
                let u = choose|u: int| 0 <= u < id_seq(acc@[c as int]@).len() && id_seq(acc@[c as int]@)[u] == i;
                assert(acc@[c as int]@[u].0 == i);
            }
        }
    }
    let j = if found { (c + 1) % k } else { c };
    proof {
        assert(j as int == next_copy(sets, c as int, i as int));
        assert(0 <= j < k);
    }
    let ghost base = ba@;
    let st = (g.id(NodeId(i as u32)).duplicate(), c);
    proof {
        lemma_laid_out_find(base.ids, gv.ids, c as int, i as int);
    }
    let from = match ba.get_node(&st) {
        Some(id) => id,
        None => {
            proof {
                assert(false);
            }
            NodeId(0)
        },
    };
    let v = &g.nodes.nodes[i].adj;
    let ghost va = v@;
    proof {
        assert(gv.adj[i as int] == adj_map(va));
        assert(adj_wf(va));
        assert(va.take(0) =~= Seq::<(NodeId, Neighbors)>::empty());
        assert(adj_map(va.take(0)) =~= Map::<u32, NeighborsV>::empty());
        assert(shifted(Map::<u32, NeighborsV>::empty(), n as int, j as int) =~= Map::<u32, NeighborsV>::empty());
        assert(base.adj.update(p, Map::<u32, NeighborsV>::empty()) =~= base.adj);
        lemma_pos_bound(j as int, 0, n as int, k as int);
    }
    let mut e: usize = 0;
    while e < v.len()
        invariant
            e <= va.len(),
            va == v@,
            va == g.nodes.nodes@[i as int].adj@,
            adj_wf(va),
            gv == g@,
            g.wf(),
            refs_valid(gv),
            i < n,
            n == gv.ids.len(),
            j < k,
            k * n + 1 < u32::MAX,
            from.0 == p,
            p < base.ids.len(),
            base.ids.len() == k * n,
            base.adj.len() == base.ids.len(),
            laid_out(base.ids, gv.ids),
            base.ids.no_duplicates(),
            ba.wf(),
            ba@ == (BaV { adj: base.adj.update(p, shifted(adj_map(va.take(e as int)), n as int, j as int)), ..base }),
        decreases va.len() - e,
    {
        let a = v[e].0;
        proof {
            assert(adj_map(va).contains_key(a.0)) by {
                assert(va[e as int].0.0 == a.0);
            }
            assert(gv.adj[i as int].contains_key(a.0));
            assert(a.0 < n);
            lemma_pos_bound(j as int, a.0 as int, n as int, k as int);
            lemma_laid_out_find(base.ids, gv.ids, j as int, a.0 as int);
            assert(va[e as int].1.wf());
        }
        let new = ba.push((g.id(a).duplicate(), j));
        let labels = v[e].1.copy();
        ba.add_transition(from, new, labels);
        proof {
            lemma_adj_map_take(va, e as int);
            assert(j * n + n <= k * n) by (nonlinear_arith)
                requires
                    j < k,
            ;
            lemma_shift_insert(adj_map(va.take(e as int)), n as int, j as int, a.0, va[e as int].1@);
            assert(new.0 == j * n + a.0);
            assert(ba@.adj =~= base.adj.update(p, shifted(adj_map(va.take(e + 1)), n as int, j as int)));
        }
        e = e + 1;
    }
    proof {
        assert(va.take(e as int) =~= va);
    }
}

impl<S: State> GeneralBuchi<S> {
    /// The counting construction with the accepting sets `acc`.
    fn counting(&self, acc: &Vec<Vec<NodeId>>) -> (r: Buchi<(S, usize)>)
        requires
            self.wf(),
            refs_valid(self@),
            acc@.len() > 0,
            forall|cc: int| 0 <= cc < acc@.len() ==> ids_increasing(#[trigger] acc@[cc]@),
            forall|cc: int, q: u32|
                0 <= cc < acc@.len() && #[trigger] id_set(acc@[cc]@).contains(q) ==> q < self@.ids.len(),
            acc@.len() * self@.ids.len() + 1 < u32::MAX,
        ensures
            r.wf(),
            is_counting(self@, acc@.map_values(|v: Vec<NodeId>| id_set(v@)), r@),
    {
        let ghost gv = self@;
        let ghost sets = acc@.map_values(|v: Vec<NodeId>| id_set(v@));
        let n = self.nodes.nodes.len();
        let k = acc.len();
        let mut ba = counting_nodes(self, k);
        proof {
            assert(n <= k * n) by (nonlinear_arith)
                requires
                    k >= 1,
            ;
            assert forall|j: int| 0 <= j < self.init_states@.len() implies (#[trigger] self.init_states@[j]).0
                < gv.ids.len() by {
                assert(id_seq(self.init_states@)[j] == self.init_states@[j].0);
                assert(gv.init.contains(self.init_states@[j].0));
            }
            assert forall|j: int| 0 <= j < acc@[0]@.len() implies (#[trigger] acc@[0]@[j]).0 < gv.ids.len() by {
                assert(id_seq(acc@[0]@)[j] == acc@[0]@[j].0);
                assert(id_set(acc@[0]@).contains(acc@[0]@[j].0));
            }
        }
        mark_initial(&mut ba, self, &self.init_states);
        mark_accepting(&mut ba, self, &acc[0]);
        let ghost base = ba@;
        proof {
            assert(base.init =~= gv.init);
            assert(base.accepting =~= sets[0]);
        }
        let mut c: usize = 0;
        while c < k
            invariant
                c <= k,
                k == acc@.len(),
                n == gv.ids.len(),
                gv == self@,
                self.wf(),
                refs_valid(gv),
                forall|cc: int| 0 <= cc < acc@.len() ==> ids_increasing(#[trigger] acc@[cc]@),
                forall|cc: int, q: u32|
                    0 <= cc < acc@.len() && #[trigger] id_set(acc@[cc]@).contains(q) ==> q < gv.ids.len(),
                k * n + 1 < u32::MAX,
                sets == acc@.map_values(|v: Vec<NodeId>| id_set(v@)),
                ba.wf(),
                base.ids.len() == k * n,
                base.adj.len() == base.ids.len(),
                laid_out(base.ids, gv.ids),
                ba@.ids == base.ids,
                ba@.alphabet == base.alphabet,
                ba@.init == base.init,
                ba@.accepting == base.accepting,
                ba@.adj.len() == base.adj.len(),
                forall|t: int|
                    0 <= t < c * n ==> #[trigger] ba@.adj[t] == shifted(
                        gv.adj[t % (n as int)],
                        n as int,
                        next_copy(sets, t / (n as int), t % (n as int)),
                    ),
                forall|t: int| c * n <= t < k * n ==> #[trigger] ba@.adj[t] == Map::<u32, NeighborsV>::empty(),
            decreases k - c,
        {
            let mut i: usize = 0;
            while i < n
                invariant
                    c < k,
                    i <= n,
                    k == acc@.len(),
                    n == gv.ids.len(),
                    gv == self@,
                    self.wf(),
                    refs_valid(gv),
                    forall|cc: int| 0 <= cc < acc@.len() ==> ids_increasing(#[trigger] acc@[cc]@),
                    forall|cc: int, q: u32|
                        0 <= cc < acc@.len() && #[trigger] id_set(acc@[cc]@).contains(q) ==> q < gv.ids.len(),
                    k * n + 1 < u32::MAX,
                    sets == acc@.map_values(|v: Vec<NodeId>| id_set(v@)),
                    ba.wf(),
                    base.ids.len() == k * n,
                    base.adj.len() == base.ids.len(),
                    laid_out(base.ids, gv.ids),
                    ba@.ids == base.ids,
                    ba@.alphabet == base.alphabet,
                    ba@.init == base.init,
                    ba@.accepting == base.accepting,
                    ba@.adj.len() == base.adj.len(),
                    forall|t: int|
                        0 <= t < c * n + i ==> #[trigger] ba@.adj[t] == shifted(
                            gv.adj[t % (n as int)],
                            n as int,
                            next_copy(sets, t / (n as int), t % (n as int)),
                        ),
                    forall|t: int| c * n + i <= t < k * n ==> #[trigger] ba@.adj[t] == Map::<u32, NeighborsV>::empty(),
                decreases n - i,
            {
                let ghost before = ba@;
                proof {
                    lemma_pos_bound(c as int, i as int, n as int, k as int);
                }
                counting_transitions(&mut ba, self, acc, c, i);
                proof {
                    let p = c * n + i;
                    lemma_join(p as int, n as int, c as int, i as int);
                    assert forall|t: int| 0 <= t < c * n + i + 1 implies #[trigger] ba@.adj[t] == shifted(
                        gv.adj[t % (n as int)],
                        n as int,
                        next_copy(sets, t / (n as int), t % (n as int)),
                    ) by {
                        if t < p {
                            assert(ba@.adj[t] == before.adj[t]);
                        }
                    }
                    assert forall|t: int| c * n + i + 1 <= t < k * n implies #[trigger] ba@.adj[t] == Map::<
                        u32,
                        NeighborsV,
                    >::empty() by {
                        assert(ba@.adj[t] == before.adj[t]);
                    }
                }
                i = i + 1;
            }
            proof {
                assert((c + 1) * n == c * n + n) by (nonlinear_arith);
            }
            c = c + 1;
        }
        proof {
            assert(ba@.alphabet == gv.alphabet);
            assert forall|t: int| 0 <= t < k * n implies #[trigger] ba@.ids[t] == (
                gv.ids[t % (n as int)],
                (t / (n as int)) as usize,
            ) by {
                assert(base.ids[t] == (gv.ids[t % (gv.ids.len() as int)], (t / (gv.ids.len() as int)) as usize));
            }
        }
        ba
    }

    /// The Büchi automaton of the generalized one, by the counting
    /// construction. Where the automaton has no accepting set, the set of all
    /// its nodes takes that place.
    pub fn to_buchi(&self) -> (r: Buchi<(S, usize)>)
        requires
            self.wf(),
            refs_valid(self@),
            counting_sets(self@).len() * self@.ids.len() + 1 < u32::MAX,
        ensures
            r.wf(),
            is_counting(self@, counting_sets(self@), r@),
    {
        let ghost gv = self@;
        if self.accepting_states.len() == 0 {
            let n = self.nodes.nodes.len();
            let mut all: Vec<NodeId> = Vec::new();
            let mut i: usize = 0;
            while i < n
                invariant
                    i <= n,
                    n == gv.ids.len(),
                    n < u32::MAX,
                    all@.len() == i,
                    forall|t: int| 0 <= t < i ==> (#[trigger] all@[t]).0 == t,
                decreases n - i,
            {
                all.push(NodeId(i as u32));
                i = i + 1;
            }
            proof {
                assert(id_set(all@) =~= Set::new(|q: u32| q < gv.ids.len())) by {
                    assert forall|q: u32| q < gv.ids.len() implies id_set(all@).contains(q) by {
                        assert(id_seq(all@)[q as int] == q);
                    }
                }
            }
            let acc = vec![all];
            proof {
                assert(acc@.map_values(|v: Vec<NodeId>| id_set(v@)) =~= counting_sets(gv));
            }
            self.counting(&acc)
        } else {
            proof {
                assert(self.accepting_states@.map_values(|v: Vec<NodeId>| id_set(v@)) == gv.accepting);
                assert forall|cc: int, q: u32|
                    0 <= cc < self.accepting_states@.len() && #[trigger] id_set(self.accepting_states@[cc]@).contains(q)
                    implies q < gv.ids.len() by {
                    assert(gv.accepting[cc].contains(q));
                }
            }
            self.counting(&self.accepting_states)
        }
    }
}

} // verus!
