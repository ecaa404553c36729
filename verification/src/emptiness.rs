//! The emptiness check of a Büchi automaton: a nested depth-first search
//! for a cycle through an accepting node that an initial node leads to
//! (Algorithm B of Vardi, Wolper and Yannakakis, "Memory-Efficient
//! Algorithms for the Verification of Temporal Properties").
use vstd::prelude::*;

use crate::buchi::{adj_map, adj_wf, disjoint_of, id_seq, id_set, BaV, Buchi, Neighbors, NodeId, State};
use crate::counting::{lemma_join, lemma_pos_bound, lemma_split};

verus! {

/// The graph names only its nodes: each successor is a node.
pub open spec fn graph_wf(succ: Seq<Vec<usize>>) -> bool {
    forall|x: int, j: int| 0 <= x < succ.len() && 0 <= j < succ[x]@.len() ==> #[trigger] succ[x]@[j] < succ.len()
}

/// `y` is a successor of `x`.
pub open spec fn edge(succ: Seq<Vec<usize>>, x: usize, y: usize) -> bool {
    x < succ.len() && succ[x as int]@.contains(y)
}

/// Each node of `p` is followed by one of its successors.
pub open spec fn is_path(succ: Seq<Vec<usize>>, p: Seq<usize>) -> bool {
    forall|i: int| 0 <= i < p.len() - 1 ==> #[trigger] edge(succ, p[i], p[i + 1])
}

/// `(s1, s2)` is an accepting lasso: `s2` is a path from an accepting node
/// back to a predecessor of it, and `s1` a path from an initial node to a
/// predecessor of it (or, empty, the accepting node is initial).
pub open spec fn is_lasso(
    succ: Seq<Vec<usize>>,
    init: Seq<usize>,
    acc: Seq<bool>,
    s1: Seq<usize>,
    s2: Seq<usize>,
) -> bool {
    &&& s2.len() > 0
    &&& s2[0] < acc.len() && acc[s2[0] as int]
    &&& is_path(succ, s2)
    &&& edge(succ, s2.last(), s2[0])
    &&& if s1.len() > 0 {
        &&& init.contains(s1[0])
        &&& is_path(succ, s1)
        &&& edge(succ, s1.last(), s2[0])
    } else {
        init.contains(s2[0])
    }
}

/// The number of marked nodes.
pub open spec fn marked(m: Seq<bool>) -> nat
    decreases m.len(),
{
    if m.len() == 0 {
        0
    } else {
        marked(m.drop_last()) + if m.last() {
            1nat
        } else {
            0nat
        }
    }
}

/// No more nodes are marked than there are.
pub proof fn lemma_marked_bound(m: Seq<bool>)
    ensures
        marked(m) <= m.len(),
    decreases m.len(),
{
    if m.len() > 0 {
        lemma_marked_bound(m.drop_last());
    }
}

/// Marking an unmarked node adds one to the count.
pub proof fn lemma_marked_mark(m: Seq<bool>, i: int)
    requires
        0 <= i < m.len(),
        !m[i],
    ensures
        marked(m.update(i, true)) == marked(m) + 1,
    decreases m.len(),
{
    let m2 = m.update(i, true);
    if i == m.len() - 1 {
        assert(m2.drop_last() =~= m.drop_last());
    } else {
        assert(m2.drop_last() =~= m.drop_last().update(i, true));
        lemma_marked_mark(m.drop_last(), i);
    }
}

/// The successor lists of a graph.
pub open spec fn adjs(succ: Seq<Vec<usize>>) -> Seq<Seq<usize>> {
    succ.map_values(|v: Vec<usize>| v@)
}

/// Every successor is a node.
pub open spec fn gwf(g: Seq<Seq<usize>>) -> bool {
    forall|x: int, j: int| 0 <= x < g.len() && 0 <= j < g[x].len() ==> #[trigger] g[x][j] < g.len()
}

proof fn lemma_adjs(succ: Seq<Vec<usize>>)
    requires
        graph_wf(succ),
    ensures
        gwf(adjs(succ)),
        adjs(succ).len() == succ.len(),
        forall|x: int| 0 <= x < succ.len() ==> #[trigger] adjs(succ)[x] == succ[x]@,
{
    assert forall|x: int, j: int| 0 <= x < adjs(succ).len() && 0 <= j < adjs(succ)[x].len() implies #[trigger] adjs(
        succ,
    )[x][j] < adjs(succ).len() by {
        assert(adjs(succ)[x] == succ[x]@);
        assert(succ[x]@[j] < succ.len());
    }
}

/// The first node of `s` that `m` does not mark.
pub open spec fn first_unmarked_in(s: Seq<usize>, m: Seq<bool>) -> Option<usize>
    decreases s.len(),
{
    if s.len() == 0 {
        None
    } else if !m[s[0] as int] {
        Some(s[0])
    } else {
        first_unmarked_in(s.drop_first(), m)
    }
}

/// The first unmarked node is a node of the list and unmarked; where
/// there is none, every node of the list is marked.
pub proof fn lemma_first_unmarked_in(s: Seq<usize>, m: Seq<bool>)
    ensures
        match first_unmarked_in(s, m) {
            Some(w) => s.contains(w) && !m[w as int],
            None => forall|i: int| 0 <= i < s.len() ==> m[#[trigger] s[i] as int],
        },
    decreases s.len(),
{
    if s.len() > 0 && m[s[0] as int] {
        lemma_first_unmarked_in(s.drop_first(), m);
        match first_unmarked_in(s.drop_first(), m) {
            Some(w) => {
                let i = choose|i: int| 0 <= i < s.drop_first().len() && s.drop_first()[i] == w;
                assert(s[i + 1] == w);
            },
            None => {
                assert forall|i: int| 0 <= i < s.len() implies m[#[trigger] s[i] as int] by {
                    if i > 0 {
                        assert(s[i] == s.drop_first()[i - 1]);
                    }
                }
            },
        }
    } else if s.len() > 0 {
        assert(s[0] == s[0]);
        assert(s.contains(s[0]));
    }
}

/// The inner search from `x`, from stack `s2` and marks `m2`: the stack
/// when it finds an edge back to `x` (or `None`), and the marks it leaves.
pub open spec fn red_spec(g: Seq<Seq<usize>>, x: usize, s2: Seq<usize>, m2: Seq<bool>) -> (Option<Seq<usize>>, Seq<bool>)
    decreases g.len() - marked(m2), s2.len(),
    when gwf(g) && m2.len() == g.len() && (forall|i: int| 0 <= i < s2.len() ==> #[trigger] s2[i] < g.len())
{
    if s2.len() == 0 {
        (None, m2)
    } else {
        let v = s2.last();
        if g[v as int].contains(x) {
            (Some(s2), m2)
        } else {
            match first_unmarked_in(g[v as int], m2) {
                None => red_spec(g, x, s2.drop_last(), m2),
                Some(w) => {
                    proof {
                        lemma_first_unmarked_in(g[v as int], m2);
                        let j = choose|j: int| 0 <= j < g[v as int].len() && g[v as int][j] == w;
                        assert(g[v as int][j] < g.len());
                        lemma_marked_mark(m2, w as int);
                        lemma_marked_bound(m2.update(w as int, true));
                    }
                    red_spec(g, x, s2.push(w), m2.update(w as int, true))
                },
            }
        }
    }
}

/// The outer search from `s0`, from stack `s1` and marks `m1` and `m2`: the
/// path and the cycle of the first lasso it finds.
pub open spec fn blue_spec(
    g: Seq<Seq<usize>>,
    acc: Seq<bool>,
    s1: Seq<usize>,
    m1: Seq<bool>,
    m2: Seq<bool>,
) -> Option<(Seq<usize>, Seq<usize>)>
    decreases g.len() - marked(m1), s1.len(),
    when gwf(g) && m1.len() == g.len() && (forall|i: int| 0 <= i < s1.len() ==> #[trigger] s1[i] < g.len())
{
    if s1.len() == 0 {
        None
    } else {
        let x = s1.last();
        match first_unmarked_in(g[x as int], m1) {
            Some(y) => {
                proof {
                    lemma_first_unmarked_in(g[x as int], m1);
                    let j = choose|j: int| 0 <= j < g[x as int].len() && g[x as int][j] == y;
                    assert(g[x as int][j] < g.len());
                    lemma_marked_mark(m1, y as int);
                    lemma_marked_bound(m1.update(y as int, true));
                }
                blue_spec(g, acc, s1.push(y), m1.update(y as int, true), m2)
            },
            None => {
                let s1p = s1.drop_last();
                if acc[x as int] {
                    let (found, m2p) = red_spec(g, x, seq![x], m2);
                    match found {
                        Some(s2) => Some((s1p, s2)),
                        None => blue_spec(g, acc, s1p, m1, m2p),
                    }
                } else {
                    blue_spec(g, acc, s1p, m1, m2)
                }
            },
        }
    }
}

/// The nested search from `s0`, with nothing marked.
pub open spec fn search_spec(g: Seq<Seq<usize>>, acc: Seq<bool>, s0: usize) -> Option<(Seq<usize>, Seq<usize>)> {
    blue_spec(g, acc, seq![s0], Seq::new(g.len(), |i: int| false), Seq::new(g.len(), |i: int| false))
}

/// The nested search from each initial node from the `t`-th on, in order:
/// the first lasso found.
pub open spec fn nested_spec(g: Seq<Seq<usize>>, acc: Seq<bool>, init: Seq<usize>, t: int) -> Option<
    (Seq<usize>, Seq<usize>),
>
    decreases init.len() - t,
{
    if t < 0 || t >= init.len() {
        None
    } else {
        match search_spec(g, acc, init[t]) {
            Some(r) => Some(r),
            None => nested_spec(g, acc, init, t + 1),
        }
    }
}

/// The views of a found path and cycle.
pub open spec fn pair_views(r: Option<(Vec<usize>, Vec<usize>)>) -> Option<(Seq<usize>, Seq<usize>)> {
    match r {
        Some((a, b)) => Some((a@, b@)),
        None => None,
    }
}

/// The first successor of `x` that is not marked, where there is one.
fn first_unmarked(succ: &Vec<Vec<usize>>, x: usize, marks: &Vec<bool>) -> (r: Option<usize>)
    requires
        graph_wf(succ@),
        x < succ@.len(),
        marks@.len() == succ@.len(),
    ensures
        r == first_unmarked_in(succ@[x as int]@, marks@),
        match r {
            Some(y) => edge(succ@, x, y) && y < succ@.len() && !marks@[y as int],
            None => forall|y: usize| #[trigger] edge(succ@, x, y) ==> marks@[y as int],
        },
{
    let s = &succ[x];
    let mut j: usize = 0;
    proof {
        assert(s@.skip(0) =~= s@);
    }
    while j < s.len()
        invariant
            j <= s@.len(),
            s == succ@[x as int],
            graph_wf(succ@),
            x < succ@.len(),
            marks@.len() == succ@.len(),
            forall|k: int| 0 <= k < j ==> marks@[(#[trigger] s@[k]) as int],
            first_unmarked_in(s@, marks@) == first_unmarked_in(s@.skip(j as int), marks@),
        decreases s@.len() - j,
    {
        let y = s[j];
        proof {
            assert(succ@[x as int]@[j as int] < succ@.len());
            assert(s@.skip(j as int)[0] == y);
            assert(s@.skip(j as int).drop_first() =~= s@.skip(j + 1));
        }
        if !marks[y] {
            proof {
                assert(s@.contains(y));
            }
            return Some(y);
        }
        j = j + 1;
    }
    proof {
        assert(s@.skip(j as int) =~= Seq::<usize>::empty());
    }
    proof {
        assert forall|y: usize| #[trigger] edge(succ@, x, y) implies marks@[y as int] by {
            let k = choose|k: int| 0 <= k < s@.len() && s@[k] == y;
        }
    }
    None
}

/// Whether `y` is a successor of `x`.
fn has_edge(succ: &Vec<Vec<usize>>, x: usize, y: usize) -> (r: bool)
    requires
        x < succ@.len(),
    ensures
        r == edge(succ@, x, y),
{
    let s = &succ[x];
    let mut j: usize = 0;
    while j < s.len()
        invariant
            j <= s@.len(),
            x < succ@.len(),
            s == succ@[x as int],
            forall|k: int| 0 <= k < j ==> s@[k] != y,
        decreases s@.len() - j,
    {
        if s[j] == y {
            proof {
                assert(s@.contains(y));
            }
            return true;
        }
        j = j + 1;
    }
    false
}

/// `w` is a node of the graph when it is a successor of a node.
proof fn lemma_edge_bound(succ: Seq<Vec<usize>>, v: usize, w: usize)
    requires
        graph_wf(succ),
        edge(succ, v, w),
    ensures
        w < succ.len(),
{
    let j = choose|j: int| 0 <= j < succ[v as int]@.len() && succ[v as int]@[j] == w;
    assert(succ[v as int]@[j] < succ.len());
}

/// `c` is a cycle through `v`: a path from `v` whose last node leads back
/// to `v`.
pub open spec fn cycle_at(succ: Seq<Vec<usize>>, v: usize, c: Seq<usize>) -> bool {
    &&& c.len() > 0
    &&& c[0] == v
    &&& is_path(succ, c)
    &&& edge(succ, c.last(), v)
}

/// The first node of a lasso: that of the path to the cycle, or, where
/// the path is empty, the accepting node.
pub open spec fn lasso_start(s1: Seq<usize>, s2: Seq<usize>) -> usize {
    if s1.len() > 0 {
        s1[0]
    } else {
        s2[0]
    }
}

/// `(s1, s2)` is an accepting lasso that starts at `s0`.
pub open spec fn lasso_from(succ: Seq<Vec<usize>>, acc: Seq<bool>, s0: usize, s1: Seq<usize>, s2: Seq<usize>) -> bool {
    &&& s2.len() > 0
    &&& s2[0] < acc.len() && acc[s2[0] as int]
    &&& is_path(succ, s2)
    &&& edge(succ, s2.last(), s2[0])
    &&& lasso_start(s1, s2) == s0
    &&& s1.len() > 0 ==> is_path(succ, s1) && edge(succ, s1.last(), s2[0])
}

/// A node that the outer search has reached: marked, or the node it
/// started from.
spec fn visited(m1: Seq<bool>, s0: usize, v: usize) -> bool {
    m1[v as int] || v == s0
}

/// A node that the outer search is done with: reached, and off its stack.
spec fn finished(m1: Seq<bool>, s0: usize, st: Seq<usize>, v: usize) -> bool {
    visited(m1, s0, v) && !st.contains(v)
}

/// Every successor of a node that the outer search is done with has been
/// reached.
spec fn blue_closed(succ: Seq<Vec<usize>>, m1: Seq<bool>, s0: usize, st: Seq<usize>) -> bool {
    forall|v: usize, w: usize| #[trigger] edge(succ, v, w) && finished(m1, s0, st, v) ==> visited(m1, s0, w)
}

/// Every successor of a marked node is marked.
spec fn marks_closed(succ: Seq<Vec<usize>>, m: Seq<bool>) -> bool {
    forall|v: usize, w: usize| #[trigger] edge(succ, v, w) && m[v as int] ==> m[w as int]
}

/// Every successor of `v` is marked.
spec fn succ_marked(succ: Seq<Vec<usize>>, m: Seq<bool>, v: usize) -> bool {
    forall|w: usize| #[trigger] edge(succ, v, w) ==> m[w as int]
}

/// A node that the inner search from `x` has reached: `x`, or one that it
/// marked.
spec fn red_new(m0: Seq<bool>, m2: Seq<bool>, x: usize, v: usize) -> bool {
    (m2[v as int] && !m0[v as int]) || v == x
}

/// Along a cycle through `x`, each node is marked from before the inner
/// search or was reached by it.
proof fn lemma_red_walk(succ: Seq<Vec<usize>>, m0: Seq<bool>, m2: Seq<bool>, x: usize, c: Seq<usize>, k: int)
    requires
        graph_wf(succ),
        x < succ.len(),
        m0.len() == succ.len(),
        m2.len() == succ.len(),
        marks_closed(succ, m0),
        forall|v: usize| v < succ.len() && red_new(m0, m2, x, v) ==> #[trigger] succ_marked(succ, m2, v),
        cycle_at(succ, x, c),
        0 <= k < c.len(),
    ensures
        c[k] < succ.len(),
        m0[c[k] as int] || red_new(m0, m2, x, c[k]),
    decreases k,
{
    if k > 0 {
        lemma_red_walk(succ, m0, m2, x, c, k - 1);
        let u = c[k - 1];
        let i = k - 1;
        assert(edge(succ, c[i], c[i + 1]));
        lemma_edge_bound(succ, u, c[k]);
        if m0[u as int] {
            assert(edge(succ, u, c[k]) && m0[u as int]);
        } else {
            assert(succ_marked(succ, m2, u));
            assert(m2[c[k] as int]);
        }
    }
}

/// Where the inner search from `x` ends without finding an edge back to
/// `x`, no cycle passes through `x`: every node it reached has its
/// successors marked and no edge to `x`, and the marks from before are
/// closed under successors and miss `x`.
proof fn lemma_red_no_cycle(succ: Seq<Vec<usize>>, m0: Seq<bool>, m2: Seq<bool>, x: usize, c: Seq<usize>)
    requires
        graph_wf(succ),
        x < succ.len(),
        m0.len() == succ.len(),
        m2.len() == succ.len(),
        !m0[x as int],
        marks_closed(succ, m0),
        forall|v: usize| v < succ.len() && red_new(m0, m2, x, v) ==> #[trigger] succ_marked(succ, m2, v),
        forall|v: usize| v < succ.len() && red_new(m0, m2, x, v) ==> !#[trigger] edge(succ, v, x),
    ensures
        !cycle_at(succ, x, c),
{
    if cycle_at(succ, x, c) {
        let k = c.len() - 1;
        lemma_red_walk(succ, m0, m2, x, c, k);
        let u = c[k];
        assert(edge(succ, u, x));
        if m0[u as int] {
            assert(edge(succ, u, x) && m0[u as int]);
        }
    }
}

/// The inner search from accepting node `x`, marking in `m2`: a path from
/// `x` to a predecessor of `x` where there is one that avoids the marked
/// nodes. Where there is none, the marks stay closed under successors, the
/// nodes it marked are ones that the outer search (marks `m1` from `s0`,
/// stack `st`) is done with, and no cycle passes through `x`.
fn red_search(
    succ: &Vec<Vec<usize>>,
    x: usize,
    m2: &mut Vec<bool>,
    Ghost(m1): Ghost<Seq<bool>>,
    Ghost(s0): Ghost<usize>,
    Ghost(st): Ghost<Seq<usize>>,
) -> (r: Option<Vec<usize>>)
    requires
        graph_wf(succ@),
        x < succ@.len(),
        old(m2)@.len() == succ@.len(),
        m1.len() == succ@.len(),
        !old(m2)@[x as int],
        marks_closed(succ@, old(m2)@),
        blue_closed(succ@, m1, s0, st),
        forall|w: usize| #[trigger] edge(succ@, x, w) ==> visited(m1, s0, w),
        is_path(succ@, st),
        st.len() > 0 ==> edge(succ@, st.last(), x),
    ensures
        final(m2)@.len() == succ@.len(),
        red_spec(adjs(succ@), x, seq![x], old(m2)@) == (
            match r {
                Some(s2) => Some(s2@),
                None => None,
            },
            final(m2)@,
        ),
        match r {
            Some(s2) => {
                &&& s2@.len() > 0
                &&& s2@[0] == x
                &&& is_path(succ@, s2@)
                &&& edge(succ@, s2@.last(), x)
            },
            None => {
                &&& marks_closed(succ@, final(m2)@)
                &&& forall|v: usize| v < succ@.len() && #[trigger] final(m2)@[v as int] && !old(m2)@[v as int] ==> finished(m1, s0, st, v)
                &&& forall|c: Seq<usize>| !#[trigger] cycle_at(succ@, x, c)
            },
        },
{
    let n = succ.len();
    let ghost m0 = m2@;
    let ghost mut found = false;
    let ghost mut cyc: Seq<usize> = Seq::empty();
    let ghost g = adjs(succ@);
    let mut s2: Vec<usize> = Vec::new();
    s2.push(x);
    proof {
        lemma_marked_bound(m2@);
        lemma_adjs(succ@);
        assert(s2@ =~= seq![x]);
        assert(s2@[0] == x);
        assert(s2@.contains(x));
        assert forall|v: usize| v < n && red_new(m0, m2@, x, v) implies #[trigger] succ_marked(succ@, m2@, v)
            || s2@.contains(v) by {
            assert(v == x);
        }
    }
    while s2.len() > 0
        invariant
            g == adjs(succ@),
            gwf(g),
            g.len() == n,
            forall|y: int| 0 <= y < n ==> #[trigger] g[y] == succ@[y]@,
            red_spec(g, x, s2@, m2@) == red_spec(g, x, seq![x], m0),
            m0 == old(m2)@,
            n == succ@.len(),
            graph_wf(succ@),
            x < n,
            m2@.len() == n,
            m0.len() == n,
            m1.len() == n,
            !m0[x as int],
            marks_closed(succ@, m0),
            forall|v: int| 0 <= v < n && m0[v] ==> #[trigger] m2@[v],
            blue_closed(succ@, m1, s0, st),
            forall|w: usize| #[trigger] edge(succ@, x, w) ==> visited(m1, s0, w),
            is_path(succ@, st),
            st.len() > 0 ==> edge(succ@, st.last(), x),
            s2@.len() > 0 ==> s2@[0] == x,
            is_path(succ@, s2@),
            forall|i: int| 0 <= i < s2@.len() ==> (#[trigger] s2@[i]) < n,
            forall|i: int| 0 <= i < s2@.len() ==> red_new(m0, m2@, x, #[trigger] s2@[i]),
            forall|v: usize| v < n && red_new(m0, m2@, x, v) ==> #[trigger] succ_marked(succ@, m2@, v) || s2@.contains(v),
            forall|v: usize|
                v < n && red_new(m0, m2@, x, v) && !(s2@.len() > 0 && v == s2@.last()) ==> !#[trigger] edge(succ@, v, x),
            found ==> cycle_at(succ@, x, cyc),
            !found ==> forall|v: usize| v < n && #[trigger] m2@[v as int] && !m0[v as int] ==> finished(m1, s0, st, v),
            marked(m2@) <= n,
        decreases n - marked(m2@), s2@.len(),
    {
        let v = s2[s2.len() - 1];
        if has_edge(succ, v, x) {
            proof {
                assert(g[v as int] == succ@[v as int]@);
                assert(g[v as int].contains(x));
                assert(red_spec(g, x, s2@, m2@) == (Some(s2@), m2@));
            }
            return Some(s2);
        }
        match first_unmarked(succ, v, &m2) {
            None => {
                let ghost before2 = s2@;
                s2.pop();
                proof {
                    assert(s2@ =~= before2.drop_last());
                    assert forall|i: int| 0 <= i < s2@.len() - 1 implies #[trigger] edge(succ@, s2@[i], s2@[i + 1]) by {
                        assert(edge(succ@, before2[i], before2[i + 1]));
                    }
                    assert forall|i: int| 0 <= i < s2@.len() implies red_new(m0, m2@, x, #[trigger] s2@[i]) by {
                        assert(red_new(m0, m2@, x, before2[i]));
                    }
                    assert forall|u: usize| u < n && red_new(m0, m2@, x, u) implies #[trigger] succ_marked(succ@, m2@, u)
                        || s2@.contains(u) by {
                        if u != v && !succ_marked(succ@, m2@, u) {
                            assert(before2.contains(u));
                            let i = choose|i: int| 0 <= i < before2.len() && before2[i] == u;
                            assert(i < before2.len() - 1);
                            assert(s2@[i] == u);
                        }
                    }
                    assert forall|u: usize|
                        u < n && red_new(m0, m2@, x, u) && !(s2@.len() > 0 && u == s2@.last()) implies !#[trigger] edge(
                        succ@,
                        u,
                        x,
                    ) by {
                        if u != v && s2@.len() > 0 {
                            assert(s2@.last() == before2[before2.len() - 2]);
                        }
                    }
                }
            },
            Some(w) => {
                proof {
                    lemma_marked_mark(m2@, w as int);
                    lemma_marked_bound(m2@.update(w as int, true));
                }
                let ghost before_m = m2@;
                m2.set(w, true);
                let ghost before2 = s2@;
                s2.push(w);
                proof {
                    assert(!m0[w as int]);
                    assert forall|i: int| 0 <= i < s2@.len() - 1 implies #[trigger] edge(succ@, s2@[i], s2@[i + 1]) by {
                        if i < before2.len() - 1 {
                            assert(edge(succ@, before2[i], before2[i + 1]));
                        }
                    }
                    assert forall|i: int| 0 <= i < s2@.len() implies red_new(m0, m2@, x, #[trigger] s2@[i]) by {
                        if i < before2.len() {
                            assert(red_new(m0, before_m, x, before2[i]));
                        }
                    }
                    assert forall|u: usize| u < n && red_new(m0, m2@, x, u) implies #[trigger] succ_marked(succ@, m2@, u)
                        || s2@.contains(u) by {
                        if u == w {
                            assert(s2@[before2.len() as int] == w);
                        } else {
                            assert(red_new(m0, before_m, x, u));
                            if succ_marked(succ@, before_m, u) {
                                assert forall|y: usize| #[trigger] edge(succ@, u, y) implies m2@[y as int] by {
                                    assert(before_m[y as int]);
                                }
                            } else {
                                let i = choose|i: int| 0 <= i < before2.len() && before2[i] == u;
                                assert(s2@[i] == u);
                            }
                        }
                    }
                    assert forall|u: usize|
                        u < n && red_new(m0, m2@, x, u) && !(s2@.len() > 0 && u == s2@.last()) implies !#[trigger] edge(
                        succ@,
                        u,
                        x,
                    ) by {
                        if u != v {
                            assert(red_new(m0, before_m, x, u));
                        }
                    }
                    // the node just reached is one the outer search is done
                    // with, or it lies on the outer stack and closes a cycle
                    if !found {
                        assert(red_new(m0, before_m, x, v));
                        if v == x {
                            assert(visited(m1, s0, w));
                        } else {
                            assert(finished(m1, s0, st, v));
                            assert(edge(succ@, v, w) && finished(m1, s0, st, v));
                            assert(visited(m1, s0, w));
                        }
                        if st.contains(w) {
                            let i = choose|i: int| 0 <= i < st.len() && st[i] == w;
                            let c = before2 + st.subrange(i, st.len() as int);
                            assert forall|k: int| 0 <= k < c.len() - 1 implies #[trigger] edge(succ@, c[k], c[k + 1]) by {
                                if k < before2.len() - 1 {
                                    assert(edge(succ@, before2[k], before2[k + 1]));
                                } else if k == before2.len() - 1 {
                                    assert(c[k] == v);
                                    assert(c[k + 1] == w);
                                } else {
                                    let j = k - before2.len() + i;
                                    assert(c[k] == st[j]);
                                    assert(c[k + 1] == st[j + 1]);
                                    assert(edge(succ@, st[j], st[j + 1]));
                                }
                            }
                            assert(c.last() == st.last());
                            assert(c[0] == x);
                            cyc = c;
                            found = true;
                        } else {
                            assert forall|u: usize| u < n && #[trigger] m2@[u as int] && !m0[u as int] implies finished(
                                m1,
                                s0,
                                st,
                                u,
                            ) by {
                                if u != w {
                                    assert(before_m[u as int]);
                                }
                            }
                        }
                    }
                }
            },
        }
    }
    proof {
        assert forall|u: usize| u < n && red_new(m0, m2@, x, u) implies !#[trigger] edge(succ@, u, x) by {}
        assert forall|u: usize| u < n && red_new(m0, m2@, x, u) implies #[trigger] succ_marked(succ@, m2@, u) by {}
        assert forall|c: Seq<usize>| !#[trigger] cycle_at(succ@, x, c) by {
            lemma_red_no_cycle(succ@, m0, m2@, x, c);
        }
        if found {
            assert(cycle_at(succ@, x, cyc));
        }
        assert forall|v: usize, w: usize| #[trigger] edge(succ@, v, w) && m2@[v as int] implies m2@[w as int] by {
            lemma_edge_bound(succ@, v, w);
            if m0[v as int] {
                assert(edge(succ@, v, w) && m0[v as int]);
            } else {
                assert(red_new(m0, m2@, x, v));
                assert(succ_marked(succ@, m2@, v));
            }
        }
    }
    None
}

/// Along a path from a reached node, where the outer search is done with
/// every reached node, every node is reached.
proof fn lemma_visited_walk(succ: Seq<Vec<usize>>, m1: Seq<bool>, s0: usize, st: Seq<usize>, p: Seq<usize>, k: int)
    requires
        graph_wf(succ),
        m1.len() == succ.len(),
        st.len() == 0,
        blue_closed(succ, m1, s0, st),
        is_path(succ, p),
        0 <= k < p.len(),
        p[0] < succ.len(),
        visited(m1, s0, p[0]),
    ensures
        p[k] < succ.len(),
        visited(m1, s0, p[k]),
    decreases k,
{
    if k > 0 {
        lemma_visited_walk(succ, m1, s0, st, p, k - 1);
        let i = k - 1;
        assert(edge(succ, p[i], p[i + 1]));
        lemma_edge_bound(succ, p[k - 1], p[k]);
        assert(finished(m1, s0, st, p[k - 1]));
    }
}

/// The nested depth-first search from node `s0`: an accepting lasso that
/// starts at `s0` where it finds one, and it finds one where there is one.
fn search_from(succ: &Vec<Vec<usize>>, acc: &Vec<bool>, s0: usize) -> (r: Option<(Vec<usize>, Vec<usize>)>)
    requires
        graph_wf(succ@),
        acc@.len() == succ@.len(),
        s0 < succ@.len(),
    ensures
        pair_views(r) == search_spec(adjs(succ@), acc@, s0),
        match r {
            Some((s1, s2)) => lasso_from(succ@, acc@, s0, s1@, s2@),
            None => forall|s1: Seq<usize>, s2: Seq<usize>| !#[trigger] lasso_from(succ@, acc@, s0, s1, s2),
        },
{
    let n = succ.len();
    let mut s1: Vec<usize> = Vec::new();
    s1.push(s0);
    let mut m1: Vec<bool> = Vec::new();
    let mut m2: Vec<bool> = Vec::new();
    let mut k: usize = 0;
    while k < n
        invariant
            k <= n,
            m1@.len() == k,
            m2@.len() == k,
            forall|i: int| 0 <= i < k ==> !(#[trigger] m1@[i]) && !m2@[i],
        decreases n - k,
    {
        m1.push(false);
        m2.push(false);
        k = k + 1;
    }
    let ghost g = adjs(succ@);
    proof {
        assert(m1@ =~= Seq::new(n as nat, |i: int| false));
        assert(m2@ =~= Seq::new(n as nat, |i: int| false));
        assert(s1@ =~= seq![s0]);
        lemma_adjs(succ@);
        lemma_marked_bound(m1@);
        assert forall|v: usize, w: usize| #[trigger] edge(succ@, v, w) && finished(m1@, s0, s1@, v) implies visited(
            m1@,
            s0,
            w,
        ) by {
            if v == s0 {
                assert(s1@[0] == s0);
            }
        }
        assert forall|v: usize, c: Seq<usize>|
            v < n && finished(m1@, s0, s1@, v) && acc@[v as int] implies !#[trigger] cycle_at(succ@, v, c) by {
            if v == s0 {
                assert(s1@[0] == s0);
            }
        }
    }
    while s1.len() > 0
        invariant
            g == adjs(succ@),
            gwf(g),
            g.len() == n,
            forall|y: int| 0 <= y < n ==> #[trigger] g[y] == succ@[y]@,
            blue_spec(g, acc@, s1@, m1@, m2@) == search_spec(g, acc@, s0),
            n == succ@.len(),
            graph_wf(succ@),
            acc@.len() == n,
            s0 < n,
            m1@.len() == n,
            m2@.len() == n,
            s1@.len() > 0 ==> s1@[0] == s0,
            is_path(succ@, s1@),
            forall|i: int| 0 <= i < s1@.len() ==> (#[trigger] s1@[i]) < n,
            forall|i: int| 0 <= i < s1@.len() ==> visited(m1@, s0, #[trigger] s1@[i]),
            blue_closed(succ@, m1@, s0, s1@),
            forall|v: usize| v < n && #[trigger] m2@[v as int] ==> finished(m1@, s0, s1@, v),
            marks_closed(succ@, m2@),
            forall|v: usize, c: Seq<usize>|
                v < n && finished(m1@, s0, s1@, v) && acc@[v as int] ==> !#[trigger] cycle_at(succ@, v, c),
            marked(m1@) <= n,
        decreases n - marked(m1@), s1@.len(),
    {
        let x = s1[s1.len() - 1];
        match first_unmarked(succ, x, &m1) {
            Some(y) => {
                proof {
                    lemma_marked_mark(m1@, y as int);
                    lemma_marked_bound(m1@.update(y as int, true));
                }
                let ghost before_m = m1@;
                m1.set(y, true);
                let ghost before = s1@;
                s1.push(y);
                proof {
                    assert forall|i: int| 0 <= i < s1@.len() - 1 implies #[trigger] edge(succ@, s1@[i], s1@[i + 1]) by {
                        if i < before.len() - 1 {
                            assert(edge(succ@, before[i], before[i + 1]));
                        }
                    }
                    assert forall|i: int| 0 <= i < s1@.len() implies visited(m1@, s0, #[trigger] s1@[i]) by {
                        if i < before.len() {
                            assert(visited(before_m, s0, before[i]));
                        }
                    }
                    // what the search is done with stays as it was
                    assert forall|v: usize| v < n && finished(m1@, s0, s1@, v) implies finished(before_m, s0, before, v) by {
                        assert(s1@[before.len() as int] == y);
                        if before.contains(v) {
                            let i = choose|i: int| 0 <= i < before.len() && before[i] == v;
                            assert(s1@[i] == v);
                        }
                    }
                    assert forall|v: usize, w: usize| #[trigger] edge(succ@, v, w) && finished(m1@, s0, s1@, v) implies visited(
                        m1@,
                        s0,
                        w,
                    ) by {
                        assert(finished(before_m, s0, before, v));
                        assert(edge(succ@, v, w) && finished(before_m, s0, before, v));
                    }
                    assert forall|v: usize| v < n && #[trigger] m2@[v as int] implies finished(m1@, s0, s1@, v) by {
                        assert(finished(before_m, s0, before, v));
                        assert(v != y);
                        assert(!s1@.contains(v)) by {
                            if s1@.contains(v) {
                                let i = choose|i: int| 0 <= i < s1@.len() && s1@[i] == v;
                                assert(i < before.len());
                                assert(before[i] == v);
                            }
                        }
                    }
                    assert forall|v: usize, c: Seq<usize>|
                        v < n && finished(m1@, s0, s1@, v) && acc@[v as int] implies !#[trigger] cycle_at(succ@, v, c) by {
                        assert(finished(before_m, s0, before, v));
                    }
                }
            },
            None => {
                let ghost before = s1@;
                s1.pop();
                proof {
                    assert(s1@ =~= before.drop_last());
                    assert forall|i: int| 0 <= i < s1@.len() - 1 implies #[trigger] edge(succ@, s1@[i], s1@[i + 1]) by {
                        assert(edge(succ@, before[i], before[i + 1]));
                    }
                    if s1@.len() > 0 {
                        let j = s1@.len() - 1;
                        assert(edge(succ@, before[j], before[j + 1]));
                        assert(before[j + 1] == x);
                    }
                    assert forall|i: int| 0 <= i < s1@.len() implies visited(m1@, s0, #[trigger] s1@[i]) by {
                        assert(visited(m1@, s0, before[i]));
                    }
                    // a node that the search is now done with was done with
                    // before, or it is `x`
                    assert forall|v: usize| v < n && finished(m1@, s0, s1@, v) && v != x implies finished(
                        m1@,
                        s0,
                        before,
                        v,
                    ) by {
                        if before.contains(v) {
                            let i = choose|i: int| 0 <= i < before.len() && before[i] == v;
                            assert(i < before.len() - 1);
                            assert(s1@[i] == v);
                        }
                    }
                    assert forall|v: usize| v < n && finished(m1@, s0, before, v) implies finished(m1@, s0, s1@, v) by {
                        if s1@.contains(v) {
                            let i = choose|i: int| 0 <= i < s1@.len() && s1@[i] == v;
                            assert(before[i] == v);
                        }
                    }
                    assert forall|v: usize, w: usize| #[trigger] edge(succ@, v, w) && finished(m1@, s0, s1@, v) implies visited(
                        m1@,
                        s0,
                        w,
                    ) by {
                        if v != x {
                            assert(finished(m1@, s0, before, v));
                            assert(edge(succ@, v, w) && finished(m1@, s0, before, v));
                        }
                    }
                    assert forall|v: usize| v < n && #[trigger] m2@[v as int] implies finished(m1@, s0, s1@, v) by {
                        assert(finished(m1@, s0, before, v));
                    }
                    // `x` was on the stack, so it is not marked by an inner search
                    assert(before[before.len() - 1] == x);
                    assert(!finished(m1@, s0, before, x));
                    assert(!m2@[x as int]);
                }
                if acc[x] {
                    let ghost before_m2 = m2@;
                    match red_search(succ, x, &mut m2, Ghost(m1@), Ghost(s0), Ghost(s1@)) {
                        Some(s2) => {
                            proof {
                                if s1@.len() == 0 {
                                    assert(before[0] == s0);
                                }
                            }
                            return Some((s1, s2));
                        },
                        None => {
                            proof {
                                assert forall|v: usize| v < n && #[trigger] m2@[v as int] implies finished(m1@, s0, s1@, v) by {
                                    if before_m2[v as int] {
                                        assert(finished(m1@, s0, before, v));
                                    }
                                }
                                assert forall|v: usize, c: Seq<usize>|
                                    v < n && finished(m1@, s0, s1@, v) && acc@[v as int] implies !#[trigger] cycle_at(
                                    succ@,
                                    v,
                                    c,
                                ) by {
                                    if v != x {
                                        assert(finished(m1@, s0, before, v));
                                    }
                                }
                            }
                        },
                    }
                } else {
                    proof {
                        assert forall|v: usize, c: Seq<usize>|
                            v < n && finished(m1@, s0, s1@, v) && acc@[v as int] implies !#[trigger] cycle_at(succ@, v, c) by {
                            if v != x {
                                assert(finished(m1@, s0, before, v));
                            }
                        }
                    }
                }
            },
        }
    }
    proof {
        assert forall|p1: Seq<usize>, p2: Seq<usize>| !#[trigger] lasso_from(succ@, acc@, s0, p1, p2) by {
            if lasso_from(succ@, acc@, s0, p1, p2) {
                let a = p2[0];
                let p = if p1.len() > 0 {
                    p1.push(a)
                } else {
                    seq![a]
                };
                assert(is_path(succ@, p)) by {
                    if p1.len() > 0 {
                        assert forall|i: int| 0 <= i < p.len() - 1 implies #[trigger] edge(succ@, p[i], p[i + 1]) by {
                            if i < p1.len() - 1 {
                                assert(edge(succ@, p1[i], p1[i + 1]));
                            } else {
                                assert(p[i] == p1.last());
                            }
                        }
                    }
                }
                assert(p[0] == s0);
                lemma_visited_walk(succ@, m1@, s0, s1@, p, p.len() - 1);
                assert(p[p.len() - 1] == a);
                assert(finished(m1@, s0, s1@, a));
                assert(cycle_at(succ@, a, p2));
            }
        }
    }
    None
}

/// An accepting lasso from some initial node is one from its first node.
pub open spec fn no_lasso_from(succ: Seq<Vec<usize>>, acc: Seq<bool>, s0: usize) -> bool {
    forall|s1: Seq<usize>, s2: Seq<usize>| !#[trigger] lasso_from(succ, acc, s0, s1, s2)
}

/// A cycle through an accepting node that an initial node leads to, found
/// by a nested depth-first search from each initial node in turn: the path
/// to the accepting node and the cycle from it. It finds one where there is
/// one.
pub fn nested_dfs(succ: &Vec<Vec<usize>>, init: &Vec<usize>, acc: &Vec<bool>) -> (r: Option<
    (Vec<usize>, Vec<usize>),
>)
    requires
        graph_wf(succ@),
        acc@.len() == succ@.len(),
        forall|i: int| 0 <= i < init@.len() ==> (#[trigger] init@[i]) < succ@.len(),
    ensures
        pair_views(r) == nested_spec(adjs(succ@), acc@, init@, 0),
        match r {
            Some((s1, s2)) => is_lasso(succ@, init@, acc@, s1@, s2@),
            None => forall|s1: Seq<usize>, s2: Seq<usize>| !#[trigger] is_lasso(succ@, init@, acc@, s1, s2),
        },
{
    let mut t: usize = 0;
    while t < init.len()
        invariant
            nested_spec(adjs(succ@), acc@, init@, t as int) == nested_spec(adjs(succ@), acc@, init@, 0),
            t <= init@.len(),
            graph_wf(succ@),
            acc@.len() == succ@.len(),
            forall|i: int| 0 <= i < init@.len() ==> (#[trigger] init@[i]) < succ@.len(),
            forall|i: int| 0 <= i < t ==> no_lasso_from(succ@, acc@, #[trigger] init@[i]),
        decreases init@.len() - t,
    {
        let s0 = init[t];
        match search_from(succ, acc, s0) {
            Some((s1, s2)) => {
                proof {
                    assert(init@.contains(s0));
                }
                return Some((s1, s2));
            },
            None => {
                proof {
                    assert(no_lasso_from(succ@, acc@, s0));
                }
            },
        }
        t = t + 1;
    }
    proof {
        assert forall|s1: Seq<usize>, s2: Seq<usize>| !#[trigger] is_lasso(succ@, init@, acc@, s1, s2) by {
            if is_lasso(succ@, init@, acc@, s1, s2) {
                let a = lasso_start(s1, s2);
                assert(init@.contains(a));
                let i = choose|i: int| 0 <= i < init@.len() && init@[i] == a;
                assert(no_lasso_from(succ@, acc@, init@[i]));
                assert(lasso_from(succ@, acc@, a, s1, s2));
            }
        }
    }
    None
}

/// Every node that the automaton names, as initial, accepting or target of
/// a transition, is one of its nodes.
pub open spec fn ba_refs_valid<V>(g: BaV<V>) -> bool {
    &&& g.adj.len() == g.ids.len()
    &&& forall|q: u32| #[trigger] g.init.contains(q) ==> q < g.ids.len()
    &&& forall|q: u32| #[trigger] g.accepting.contains(q) ==> q < g.ids.len()
    &&& forall|i: int, q: u32| 0 <= i < g.adj.len() && #[trigger] g.adj[i].contains_key(q) ==> q < g.ids.len()
}

/// The automaton has a transition from `x` to `y`.
pub open spec fn ba_edge<V>(g: BaV<V>, x: u32, y: u32) -> bool {
    x < g.adj.len() && g.adj[x as int].contains_key(y)
}

/// Each node of `p` is followed by a target of its transitions.
pub open spec fn ba_path<V>(g: BaV<V>, p: Seq<u32>) -> bool {
    forall|i: int| 0 <= i < p.len() - 1 ==> #[trigger] ba_edge(g, p[i], p[i + 1])
}

/// `(s1, s2)` is an accepting lasso of the automaton: `s2` a path from an
/// accepting node back to a predecessor of it, `s1` a path from an initial
/// node to a predecessor of it (or, empty, the accepting node is initial).
pub open spec fn ba_lasso<V>(g: BaV<V>, s1: Seq<u32>, s2: Seq<u32>) -> bool {
    &&& s2.len() > 0
    &&& g.accepting.contains(s2[0])
    &&& ba_path(g, s2)
    &&& ba_edge(g, s2.last(), s2[0])
    &&& if s1.len() > 0 {
        &&& g.init.contains(s1[0])
        &&& ba_path(g, s1)
        &&& ba_edge(g, s1.last(), s2[0])
    } else {
        g.init.contains(s2[0])
    }
}

/// The node indexes of a list of nodes.
pub open spec fn index_seq(v: Seq<usize>) -> Seq<u32> {
    v.map_values(|x: usize| x as u32)
}

/// An accepting cycle of an automaton: the path from an initial node to
/// the accepting node, and the cycle from the accepting node.
#[derive(Debug, PartialEq, Eq)]
pub struct AcceptingCycle {
    pub s1: Vec<NodeId>,
    pub s2: Vec<NodeId>,
}

impl AcceptingCycle {
    /// The number of nodes of the path and the cycle.
    pub fn len(&self) -> (r: usize)
        requires
            self.s1@.len() + self.s2@.len() <= usize::MAX,
        ensures
            r == self.s1@.len() + self.s2@.len(),
    {
        self.s1.len() + self.s2.len()
    }

    /// The nodes of the path, then those of the cycle.
    pub fn iter(&self) -> (r: Vec<NodeId>)
        ensures
            r@ == self.s1@ + self.s2@,
    {
        let mut r: Vec<NodeId> = Vec::new();
        let mut i: usize = 0;
        while i < self.s1.len()
            invariant
                i <= self.s1@.len(),
                r@ == self.s1@.take(i as int),
            decreases self.s1@.len() - i,
        {
            r.push(self.s1[i]);
            proof {
                assert(self.s1@.take(i + 1) =~= self.s1@.take(i as int).push(self.s1@[i as int]));
            }
            i = i + 1;
        }
        let mut j: usize = 0;
        while j < self.s2.len()
            invariant
                j <= self.s2@.len(),
                r@ == self.s1@ + self.s2@.take(j as int),
            decreases self.s2@.len() - j,
        {
            r.push(self.s2[j]);
            proof {
                assert(self.s2@.take(j + 1) =~= self.s2@.take(j as int).push(self.s2@[j as int]));
            }
            j = j + 1;
        }
        proof {
            assert(self.s1@.take(i as int) =~= self.s1@);
            assert(self.s2@.take(j as int) =~= self.s2@);
        }
        r
    }
}

/// The nodes as node ids.
fn to_ids(v: &Vec<usize>) -> (r: Vec<NodeId>)
    requires
        forall|i: int| 0 <= i < v@.len() ==> (#[trigger] v@[i]) < u32::MAX,
    ensures
        id_seq(r@) == index_seq(v@),
{
    let mut r: Vec<NodeId> = Vec::new();
    let mut i: usize = 0;
    while i < v.len()
        invariant
            i <= v@.len(),
            forall|t: int| 0 <= t < v@.len() ==> (#[trigger] v@[t]) < u32::MAX,
            id_seq(r@) == index_seq(v@.take(i as int)),
        decreases v@.len() - i,
    {
        r.push(NodeId(v[i] as u32));
        proof {
            assert(index_seq(v@.take(i + 1)) =~= index_seq(v@.take(i as int)).push(v@[i as int] as u32));
            assert(id_seq(r@) =~= index_seq(v@.take(i + 1)));
        }
        i = i + 1;
    }
    proof {
        assert(v@.take(i as int) =~= v@);
    }
    r
}

/// The successor lists of the automaton's nodes, in the order of their
/// transitions.
pub open spec fn ba_adjs<S>(b: Buchi<S>) -> Seq<Seq<usize>> {
    Seq::new(
        b.nodes.nodes@.len(),
        |i: int| b.nodes.nodes@[i].adj@.map_values(|p: (NodeId, Neighbors)| p.0.0 as usize),
    )
}

/// The initial nodes of the automaton, in order.
pub open spec fn ba_inits<S>(b: Buchi<S>) -> Seq<usize> {
    b.init_states@.map_values(|q: NodeId| q.0 as usize)
}

/// Which nodes of the automaton are accepting.
pub open spec fn ba_accs<S: State>(b: Buchi<S>) -> Seq<bool> {
    Seq::new(b@.ids.len(), |y: int| b@.accepting.contains(y as u32))
}

/// The graph of the automaton: the successors of each node, its initial
/// nodes and which nodes are accepting.
fn ba_graph<S: State>(b: &Buchi<S>) -> (r: (Vec<Vec<usize>>, Vec<usize>, Vec<bool>))
    requires
        b.wf(),
        ba_refs_valid(b@),
    ensures
        r.0@.len() == b@.ids.len(),
        graph_wf(r.0@),
        forall|x: int, y: usize|
            0 <= x < r.0@.len() && y < r.0@.len() ==> (#[trigger] r.0@[x]@.contains(y) <==> b@.adj[x].contains_key(
                y as u32,
            )),
        forall|i: int| 0 <= i < r.1@.len() ==> (#[trigger] r.1@[i]) < r.0@.len(),
        forall|y: usize| y < r.0@.len() ==> (#[trigger] r.1@.contains(y) <==> b@.init.contains(y as u32)),
        r.2@.len() == r.0@.len(),
        forall|y: int| 0 <= y < r.2@.len() ==> (#[trigger] r.2@[y] <==> b@.accepting.contains(y as u32)),
        adjs(r.0@) == ba_adjs(*b),
        r.1@ == ba_inits(*b),
        r.2@ == ba_accs(*b),
{
    let ghost g = b@;
    let n = b.nodes.nodes.len();
    let mut succ: Vec<Vec<usize>> = Vec::new();
    let mut i: usize = 0;
    while i < n
        invariant
            i <= n,
            n == g.ids.len(),
            g == b@,
            b.wf(),
            ba_refs_valid(g),
            succ@.len() == i,
            forall|x: int, j: int| 0 <= x < i && 0 <= j < succ@[x]@.len() ==> #[trigger] succ@[x]@[j] < n,
            forall|x: int, y: usize| 0 <= x < i && y < n ==> (#[trigger] succ@[x]@.contains(y) <==> g.adj[x].contains_key(y as u32)),
            n == b.nodes.nodes@.len(),
            forall|x: int| 0 <= x < i ==> #[trigger] succ@[x]@ == ba_adjs(*b)[x],
        decreases n - i,
    {
        let adj = &b.nodes.nodes[i].adj;
        let ghost va = adj@;
        proof {
            assert(g.adj[i as int] == adj_map(va));
        }
        let mut list: Vec<usize> = Vec::new();
        let mut j: usize = 0;
        while j < adj.len()
            invariant
                j <= va.len(),
                va == adj@,
                i < n,
                n == g.ids.len(),
                ba_refs_valid(g),
                g.adj[i as int] == adj_map(va),
                list@.len() == j,
                forall|t: int| 0 <= t < j ==> (#[trigger] list@[t]) == va[t].0.0 as usize,
                forall|t: int| 0 <= t < j ==> (#[trigger] list@[t]) < n,
            decreases va.len() - j,
        {
            proof {
                assert(adj_map(va).contains_key(va[j as int].0.0)) by {
                    assert(va[j as int].0.0 == va[j as int].0.0);
                }
                assert(g.adj[i as int].contains_key(va[j as int].0.0));
            }
            list.push(adj[j].0.0 as usize);
            j = j + 1;
        }
        proof {
            assert forall|y: usize| y < n implies (list@.contains(y) <==> g.adj[i as int].contains_key(y as u32)) by {
                if list@.contains(y) {
                    let t = choose|t: int| 0 <= t < list@.len() && list@[t] == y;
                    assert(va[t].0.0 == y as u32);
                }
                if g.adj[i as int].contains_key(y as u32) {
                    let t = choose|t: int| 0 <= t < va.len() && (#[trigger] va[t]).0.0 == y as u32;
                    assert(list@[t] == y);
                }
            }
        }
        proof {
            assert(list@ =~= ba_adjs(*b)[i as int]);
        }
        succ.push(list);
        proof {
            assert forall|x: int, y: usize| 0 <= x < i + 1 && y < n implies (#[trigger] succ@[x]@.contains(y)
                <==> g.adj[x].contains_key(y as u32)) by {
                if x < i {
                }
            }
        }
        i = i + 1;
    }
    let mut init: Vec<usize> = Vec::new();
    let mut k: usize = 0;
    while k < b.init_states.len()
        invariant
            k <= b.init_states@.len(),
            n == g.ids.len(),
            g == b@,
            ba_refs_valid(g),
            init@.len() == k,
            forall|t: int| 0 <= t < k ==> (#[trigger] init@[t]) == b.init_states@[t].0 as usize,
            forall|t: int| 0 <= t < k ==> (#[trigger] init@[t]) < n,
        decreases b.init_states@.len() - k,
    {
        proof {
            assert(id_seq(b.init_states@)[k as int] == b.init_states@[k as int].0);
            assert(g.init.contains(b.init_states@[k as int].0));
        }
        init.push(b.init_states[k].0 as usize);
        k = k + 1;
    }
    proof {
        assert forall|y: usize| y < n implies (#[trigger] init@.contains(y) <==> g.init.contains(y as u32)) by {
            if init@.contains(y) {
                let t = choose|t: int| 0 <= t < init@.len() && init@[t] == y;
                assert(id_seq(b.init_states@)[t] == y as u32);
            }
            if g.init.contains(y as u32) {
                let t = choose|t: int| 0 <= t < id_seq(b.init_states@).len() && id_seq(b.init_states@)[t] == y as u32;
                assert(init@[t] == y);
            }
        }
    }
    let mut acc: Vec<bool> = Vec::new();
    let mut k2: usize = 0;
    while k2 < n
        invariant
            k2 <= n,
            acc@.len() == k2,
            forall|t: int| 0 <= t < k2 ==> !(#[trigger] acc@[t]),
        decreases n - k2,
    {
        acc.push(false);
        k2 = k2 + 1;
    }
    let mut k3: usize = 0;
    while k3 < b.accepting_states.len()
        invariant
            k3 <= b.accepting_states@.len(),
            n == g.ids.len(),
            g == b@,
            b.wf(),
            ba_refs_valid(g),
            acc@.len() == n,
            forall|y: int| 0 <= y < n ==> (#[trigger] acc@[y] <==> id_seq(b.accepting_states@.take(k3 as int)).contains(y as u32)),
        decreases b.accepting_states@.len() - k3,
    {
        let q = b.accepting_states[k3].0;
        proof {
            assert(id_seq(b.accepting_states@)[k3 as int] == q);
            assert(g.accepting.contains(q));
            assert(id_seq(b.accepting_states@.take(k3 + 1)) =~= id_seq(b.accepting_states@.take(k3 as int)).push(q));
        }
        let ghost before = acc@;
        acc.set(q as usize, true);
        proof {
            let sq = id_seq(b.accepting_states@.take(k3 as int));
            assert(id_seq(b.accepting_states@.take(k3 + 1)) =~= sq.push(q));
            assert forall|y: int| 0 <= y < n implies (#[trigger] acc@[y] <==> sq.push(q).contains(y as u32)) by {
                if y == q as int {
                    assert(sq.push(q)[sq.len() as int] == q);
                } else {
                    assert(y < u32::MAX);
                    assert((y as u32) as int == y);
                    assert(acc@[y] == before[y]);
                    if sq.push(q).contains(y as u32) {
                        let t = choose|t: int| 0 <= t < sq.push(q).len() && sq.push(q)[t] == y as u32;
                        assert(t < sq.len());
                        assert(sq[t] == y as u32);
                    }
                    if sq.contains(y as u32) {
                        let t = choose|t: int| 0 <= t < sq.len() && sq[t] == y as u32;
                        assert(sq.push(q)[t] == y as u32);
                    }
                }
            }
        }
        k3 = k3 + 1;
    }
    proof {
        assert(b.accepting_states@.take(k3 as int) =~= b.accepting_states@);
        assert(adjs(succ@) =~= ba_adjs(*b));
        assert(init@ =~= ba_inits(*b));
        assert(acc@ =~= ba_accs(*b));
    }
    (succ, init, acc)
}

impl<S: State> Buchi<S> {
    /// A cycle through an accepting node that an initial node leads to,
    /// where the nested depth-first search finds one.
    pub fn find_accepting_cycle(&self) -> (r: Option<AcceptingCycle>)
        requires
            self.wf(),
            ba_refs_valid(self@),
        ensures
            match r {
                Some(c) => ba_lasso(self@, id_seq(c.s1@), id_seq(c.s2@)),
                None => forall|t1: Seq<u32>, t2: Seq<u32>| !#[trigger] ba_lasso(self@, t1, t2),
            },
            match nested_spec(ba_adjs(*self), ba_accs(*self), ba_inits(*self), 0) {
                Some((s1, s2)) => (r matches Some(c) && id_seq(c.s1@) == index_seq(s1) && id_seq(c.s2@) == index_seq(s2)),
                None => r is None,
            },
    {
        let (succ, init, acc) = ba_graph(self);
        match nested_dfs(&succ, &init, &acc) {
            Some((s1, s2)) => {
                proof {
                    lemma_lasso_ids(self@, succ@, init@, acc@, s1@, s2@);
                }
                let c = AcceptingCycle { s1: to_ids(&s1), s2: to_ids(&s2) };
                Some(c)
            },
            None => {
                proof {
                    assert forall|t1: Seq<u32>, t2: Seq<u32>| !#[trigger] ba_lasso(self@, t1, t2) by {
                        if ba_lasso(self@, t1, t2) {
                            lemma_lasso_back(self@, succ@, init@, acc@, t1, t2);
                        }
                    }
                }
                None
            },
        }
    }
}

proof fn lemma_path_ids<V>(g: BaV<V>, succ: Seq<Vec<usize>>, p: Seq<usize>)
    requires
        succ.len() == g.ids.len(),
        g.adj.len() == g.ids.len(),
        g.ids.len() < u32::MAX,
        graph_wf(succ),
        forall|x: int, y: usize|
            0 <= x < succ.len() && y < succ.len() ==> (#[trigger] succ[x]@.contains(y) <==> g.adj[x].contains_key(
                y as u32,
            )),
        is_path(succ, p),
    ensures
        ba_path(g, index_seq(p)),
        forall|i: int| 0 <= i < p.len() - 1 ==> (#[trigger] p[i]) < succ.len(),
{
    assert forall|i: int| 0 <= i < p.len() - 1 implies #[trigger] ba_edge(g, index_seq(p)[i], index_seq(p)[i + 1]) by {
        assert(edge(succ, p[i], p[i + 1]));
        let j = choose|j: int| 0 <= j < succ[p[i] as int]@.len() && succ[p[i] as int]@[j] == p[i + 1];
        assert(succ[p[i] as int]@[j] < succ.len());
        assert(succ[p[i] as int]@.contains(p[i + 1]));
        assert(g.adj[p[i] as int].contains_key(p[i + 1] as u32));
        assert(index_seq(p)[i] == p[i] as u32);
        assert(index_seq(p)[i + 1] == p[i + 1] as u32);
    }
    assert forall|i: int| 0 <= i < p.len() - 1 implies (#[trigger] p[i]) < succ.len() by {
        assert(edge(succ, p[i], p[i + 1]));
    }
}

proof fn lemma_lasso_ids<V>(
    g: BaV<V>,
    succ: Seq<Vec<usize>>,
    init: Seq<usize>,
    acc: Seq<bool>,
    s1: Seq<usize>,
    s2: Seq<usize>,
)
    requires
        succ.len() == g.ids.len(),
        g.adj.len() == g.ids.len(),
        g.ids.len() < u32::MAX,
        graph_wf(succ),
        forall|x: int, y: usize|
            0 <= x < succ.len() && y < succ.len() ==> (#[trigger] succ[x]@.contains(y) <==> g.adj[x].contains_key(
                y as u32,
            )),
        forall|i: int| 0 <= i < init.len() ==> (#[trigger] init[i]) < succ.len(),
        forall|y: usize| y < succ.len() ==> (#[trigger] init.contains(y) <==> g.init.contains(y as u32)),
        acc.len() == succ.len(),
        forall|y: int| 0 <= y < acc.len() ==> (#[trigger] acc[y] <==> g.accepting.contains(y as u32)),
        is_lasso(succ, init, acc, s1, s2),
    ensures
        ba_lasso(g, index_seq(s1), index_seq(s2)),
        forall|i: int| 0 <= i < s1.len() ==> (#[trigger] s1[i]) < u32::MAX,
        forall|i: int| 0 <= i < s2.len() ==> (#[trigger] s2[i]) < u32::MAX,
{
    lemma_path_ids(g, succ, s1);
    lemma_path_ids(g, succ, s2);
    let n = succ.len();
    assert(edge(succ, s2.last(), s2[0]));
    let j = choose|j: int| 0 <= j < succ[s2.last() as int]@.len() && succ[s2.last() as int]@[j] == s2[0];
    assert(succ[s2.last() as int]@[j] < n);
    assert(index_seq(s2).last() == s2.last() as u32);
    if s1.len() > 0 {
        assert(edge(succ, s1.last(), s2[0]));
        assert(init.contains(s1[0]));
        let t = choose|t: int| 0 <= t < init.len() && init[t] == s1[0];
        assert(init[t] < n);
        assert(index_seq(s1).last() == s1.last() as u32);
    } else {
        assert(init.contains(s2[0]));
    }
    assert forall|i: int| 0 <= i < s1.len() implies (#[trigger] s1[i]) < u32::MAX by {
        if i < s1.len() - 1 {
        } else {
            assert(edge(succ, s1.last(), s2[0]));
        }
    }
    assert forall|i: int| 0 <= i < s2.len() implies (#[trigger] s2[i]) < u32::MAX by {
        if i < s2.len() - 1 {
        } else {
            assert(edge(succ, s2.last(), s2[0]));
        }
    }
}

/// The node indexes as list positions.
pub open spec fn usize_seq(t: Seq<u32>) -> Seq<usize> {
    t.map_values(|q: u32| q as usize)
}

proof fn lemma_path_back<V>(g: BaV<V>, succ: Seq<Vec<usize>>, t: Seq<u32>)
    requires
        succ.len() == g.ids.len(),
        ba_refs_valid(g),
        forall|x: int, y: usize|
            0 <= x < succ.len() && y < succ.len() ==> (#[trigger] succ[x]@.contains(y) <==> g.adj[x].contains_key(
                y as u32,
            )),
        ba_path(g, t),
    ensures
        is_path(succ, usize_seq(t)),
{
    let p = usize_seq(t);
    assert forall|i: int| 0 <= i < p.len() - 1 implies #[trigger] edge(succ, p[i], p[i + 1]) by {
        assert(ba_edge(g, t[i], t[i + 1]));
        assert(t[i + 1] < g.ids.len());
        assert(p[i] == t[i] as usize);
        assert(p[i + 1] == t[i + 1] as usize);
        assert(succ[p[i] as int]@.contains(p[i + 1]));
    }
}

/// A lasso of the automaton is one of its graph.
proof fn lemma_lasso_back<V>(
    g: BaV<V>,
    succ: Seq<Vec<usize>>,
    init: Seq<usize>,
    acc: Seq<bool>,
    t1: Seq<u32>,
    t2: Seq<u32>,
)
    requires
        succ.len() == g.ids.len(),
        ba_refs_valid(g),
        forall|x: int, y: usize|
            0 <= x < succ.len() && y < succ.len() ==> (#[trigger] succ[x]@.contains(y) <==> g.adj[x].contains_key(
                y as u32,
            )),
        forall|y: usize| y < succ.len() ==> (#[trigger] init.contains(y) <==> g.init.contains(y as u32)),
        acc.len() == succ.len(),
        forall|y: int| 0 <= y < acc.len() ==> (#[trigger] acc[y] <==> g.accepting.contains(y as u32)),
        ba_lasso(g, t1, t2),
    ensures
        is_lasso(succ, init, acc, usize_seq(t1), usize_seq(t2)),
{
    let s1 = usize_seq(t1);
    let s2 = usize_seq(t2);
    lemma_path_back(g, succ, t1);
    lemma_path_back(g, succ, t2);
    assert(g.accepting.contains(t2[0]));
    assert(t2[0] < g.ids.len());
    assert(s2[0] == t2[0] as usize);
    assert(acc[s2[0] as int]);
    assert(ba_edge(g, t2.last(), t2[0]));
    assert(s2.last() == t2.last() as usize);
    assert(succ[s2.last() as int]@.contains(s2[0]));
    if t1.len() > 0 {
        assert(g.init.contains(t1[0]));
        assert(t1[0] < g.ids.len());
        assert(s1[0] == t1[0] as usize);
        assert(init.contains(s1[0]));
        assert(ba_edge(g, t1.last(), t2[0]));
        assert(s1.last() == t1.last() as usize);
        assert(succ[s1.last() as int]@.contains(s2[0]));
    } else {
        assert(g.init.contains(t2[0]));
        assert(init.contains(s2[0]));
    }
}

/// The product has a transition from `x` to `y`: the first automaton has
/// one from `x.0` to `y.0`, the second one from `x.1` to `y.1`, and their
/// labels share a set.
pub open spec fn product_edge<V, W>(ga: BaV<V>, gb: BaV<W>, x: (u32, u32), y: (u32, u32)) -> bool {
    &&& x.0 < ga.adj.len() && ga.adj[x.0 as int].contains_key(y.0)
    &&& x.1 < gb.adj.len() && gb.adj[x.1 as int].contains_key(y.1)
    &&& !disjoint_of(ga.adj[x.0 as int][y.0], gb.adj[x.1 as int][y.1])
}

/// Each node of `p` is followed by a successor in the product.
pub open spec fn product_path<V, W>(ga: BaV<V>, gb: BaV<W>, p: Seq<(u32, u32)>) -> bool {
    forall|i: int| 0 <= i < p.len() - 1 ==> #[trigger] product_edge(ga, gb, p[i], p[i + 1])
}

/// `(s1, s2)` is an accepting lasso of the product, whose initial nodes are
/// the pairs of initial nodes and whose accepting nodes are the pairs of
/// accepting nodes.
pub open spec fn product_lasso<V, W>(ga: BaV<V>, gb: BaV<W>, s1: Seq<(u32, u32)>, s2: Seq<(u32, u32)>) -> bool {
    &&& s2.len() > 0
    &&& ga.accepting.contains(s2[0].0) && gb.accepting.contains(s2[0].1)
    &&& product_path(ga, gb, s2)
    &&& product_edge(ga, gb, s2.last(), s2[0])
    &&& if s1.len() > 0 {
        &&& ga.init.contains(s1[0].0) && gb.init.contains(s1[0].1)
        &&& product_path(ga, gb, s1)
        &&& product_edge(ga, gb, s1.last(), s2[0])
    } else {
        ga.init.contains(s2[0].0) && gb.init.contains(s2[0].1)
    }
}

/// The product of two automata, explored over pairs of their nodes.
pub struct ProductBuchi<'a, 'b, S, T> {
    pub a: &'a Buchi<S>,
    pub b: &'b Buchi<T>,
}

/// An accepting cycle of a product: the path from an initial pair to the
/// accepting pair, and the cycle from it.
#[derive(Debug, PartialEq, Eq)]
pub struct ProductAcceptingCycle {
    pub s1: Vec<(NodeId, NodeId)>,
    pub s2: Vec<(NodeId, NodeId)>,
}

/// The pairs of node indexes of a list of product nodes, node `t` being the
/// pair `(t / nb, t % nb)`.
pub open spec fn pair_seq(v: Seq<usize>, nb: int) -> Seq<(u32, u32)> {
    v.map_values(|t: usize| (((t as int) / nb) as u32, ((t as int) % nb) as u32))
}

/// The pairs of node ids of a list of pairs.
pub open spec fn pair_ids(v: Seq<(NodeId, NodeId)>) -> Seq<(u32, u32)> {
    v.map_values(|p: (NodeId, NodeId)| (p.0.0, p.1.0))
}

impl ProductAcceptingCycle {
    /// The number of nodes of the path and the cycle.
    pub fn len(&self) -> (r: usize)
        requires
            self.s1@.len() + self.s2@.len() <= usize::MAX,
        ensures
            r == self.s1@.len() + self.s2@.len(),
    {
        self.s1.len() + self.s2.len()
    }
}

/// The code of product node `(p, q)`.
pub open spec fn code(p: int, q: int, nb: int) -> int {
    p * nb + q
}

/// The codes of the pairs of transition `ea` of the first automaton with
/// each transition of `vb` of the second whose label shares a set with it,
/// in order.
pub open spec fn pair_row(ea: (NodeId, Neighbors), vb: Seq<(NodeId, Neighbors)>, nb: int) -> Seq<usize>
    decreases vb.len(),
{
    if vb.len() == 0 {
        Seq::empty()
    } else {
        let rest = pair_row(ea, vb.drop_last(), nb);
        if disjoint_of(ea.1@, vb.last().1@) {
            rest
        } else {
            rest.push(code(ea.0.0 as int, vb.last().0.0 as int, nb) as usize)
        }
    }
}

/// The codes of the successors of a product node whose components have
/// transitions `va` and `vb`: for each transition of `va` in order, its row.
pub open spec fn pair_succ(va: Seq<(NodeId, Neighbors)>, vb: Seq<(NodeId, Neighbors)>, nb: int) -> Seq<usize>
    decreases va.len(),
{
    if va.len() == 0 {
        Seq::empty()
    } else {
        pair_succ(va.drop_last(), vb, nb) + pair_row(va.last(), vb, nb)
    }
}

/// The successor lists of the product, node `(p, q)` at `p * nb + q`.
pub open spec fn product_adjs<S, T>(a: Buchi<S>, b: Buchi<T>) -> Seq<Seq<usize>> {
    let nb = b.nodes.nodes@.len() as int;
    Seq::new(
        (a.nodes.nodes@.len() * b.nodes.nodes@.len()) as nat,
        |t: int| pair_succ(a.nodes.nodes@[t / nb].adj@, b.nodes.nodes@[t % nb].adj@, nb),
    )
}

/// The codes of the pairs of initial nodes, for each of `ia` in order each
/// of `ib` in order.
pub open spec fn pair_inits(ia: Seq<usize>, ib: Seq<usize>, nb: int) -> Seq<usize>
    decreases ia.len(),
{
    if ia.len() == 0 {
        Seq::empty()
    } else {
        pair_inits(ia.drop_last(), ib, nb) + ib.map_values(|y: usize| code(ia.last() as int, y as int, nb) as usize)
    }
}

/// Which product nodes are accepting: both components are.
pub open spec fn product_accs<S: State, T: State>(a: Buchi<S>, b: Buchi<T>) -> Seq<bool> {
    let nb = b@.ids.len() as int;
    Seq::new(
        (a@.ids.len() * b@.ids.len()) as nat,
        |k: int| ba_accs(a)[k / nb] && ba_accs(b)[k % nb],
    )
}

/// The successors of product node `(p, q)`, in order: for each transition
/// of `p`, each transition of `q` whose label shares a set with it.
pub(crate) fn product_succ<S: State, T: State>(a: &Buchi<S>, b: &Buchi<T>, p: usize, q: usize) -> (r: Vec<usize>)
    requires
        a.wf(),
        b.wf(),
        ba_refs_valid(a@),
        ba_refs_valid(b@),
        p < a@.ids.len(),
        q < b@.ids.len(),
        a@.ids.len() * b@.ids.len() < u32::MAX,
    ensures
        forall|j: int| 0 <= j < r@.len() ==> (#[trigger] r@[j]) < a@.ids.len() * b@.ids.len(),
        forall|p2: int, q2: int|
            0 <= p2 < a@.ids.len() && 0 <= q2 < b@.ids.len() ==> (r@.contains(
                #[trigger] code(p2, q2, b@.ids.len() as int) as usize,
            ) <==> product_edge(a@, b@, (p as u32, q as u32), (p2 as u32, q2 as u32))),
        r@ == pair_succ(a.nodes.nodes@[p as int].adj@, b.nodes.nodes@[q as int].adj@, b@.ids.len() as int),
{
    let ghost ga = a@;
    let ghost gb = b@;
    let na = a.nodes.nodes.len();
    let nb = b.nodes.nodes.len();
    let va = &a.nodes.nodes[p].adj;
    let vb = &b.nodes.nodes[q].adj;
    proof {
        assert(ga.adj[p as int] == adj_map(va@));
        assert(gb.adj[q as int] == adj_map(vb@));
        assert(adj_wf(va@));
        assert(adj_wf(vb@));
    }
    let mut r: Vec<usize> = Vec::new();
    let mut i: usize = 0;
    proof {
        assert(va@.take(0) =~= Seq::<(NodeId, Neighbors)>::empty());
        assert(r@ =~= pair_succ(va@.take(0), vb@, nb as int));
    }
    while i < va.len()
        invariant
            r@ == pair_succ(va@.take(i as int), vb@, nb as int),
            i <= va@.len(),
            na == ga.ids.len(),
            nb == gb.ids.len(),
            na * nb < u32::MAX,
            ba_refs_valid(ga),
            ba_refs_valid(gb),
            p < na,
            q < nb,
            ga.adj[p as int] == adj_map(va@),
            gb.adj[q as int] == adj_map(vb@),
            adj_wf(va@),
            adj_wf(vb@),
            forall|j: int| 0 <= j < r@.len() ==> (#[trigger] r@[j]) < na * nb,
            forall|p2: int, q2: int|
                0 <= p2 < na && 0 <= q2 < nb ==> (r@.contains(#[trigger] code(p2, q2, nb as int) as usize) <==> exists|
                    i2: int,
                    j2: int,
                |
                    0 <= i2 < i && 0 <= j2 < vb@.len() && va@[i2].0.0 == p2 && vb@[j2].0.0 == q2 && !disjoint_of(
                        #[trigger] va@[i2].1@,
                        #[trigger] vb@[j2].1@,
                    )),
        decreases va@.len() - i,
    {
        let mut j: usize = 0;
        let ghost ri = r@;
        proof {
            assert(vb@.take(0) =~= Seq::<(NodeId, Neighbors)>::empty());
            assert(r@ =~= ri + pair_row(va@[i as int], vb@.take(0), nb as int));
        }
        while j < vb.len()
            invariant
                r@ == ri + pair_row(va@[i as int], vb@.take(j as int), nb as int),
                ri == pair_succ(va@.take(i as int), vb@, nb as int),
                i < va@.len(),
                j <= vb@.len(),
                na == ga.ids.len(),
                nb == gb.ids.len(),
                na * nb < u32::MAX,
                ba_refs_valid(ga),
                ba_refs_valid(gb),
                p < na,
                q < nb,
                ga.adj[p as int] == adj_map(va@),
                gb.adj[q as int] == adj_map(vb@),
                adj_wf(va@),
                adj_wf(vb@),
                forall|t: int| 0 <= t < r@.len() ==> (#[trigger] r@[t]) < na * nb,
                forall|p2: int, q2: int|
                    0 <= p2 < na && 0 <= q2 < nb ==> (r@.contains(#[trigger] code(p2, q2, nb as int) as usize) <==> (
                    ri.contains(code(p2, q2, nb as int) as usize) || exists|j2: int|
                        0 <= j2 < j && va@[i as int].0.0 == p2 && vb@[j2].0.0 == q2 && !disjoint_of(
                            va@[i as int].1@,
                            #[trigger] vb@[j2].1@,
                        ))),
                forall|p2: int, q2: int|
                    0 <= p2 < na && 0 <= q2 < nb ==> (ri.contains(#[trigger] code(p2, q2, nb as int) as usize) <==> exists|
                        i2: int,
                        j2: int,
                    |
                        0 <= i2 < i && 0 <= j2 < vb@.len() && va@[i2].0.0 == p2 && vb@[j2].0.0 == q2 && !disjoint_of(
                            #[trigger] va@[i2].1@,
                            #[trigger] vb@[j2].1@,
                        )),
            decreases vb@.len() - j,
        {
            let p2 = va[i].0.0;
            let q2 = vb[j].0.0;
            proof {
                assert(adj_map(va@).contains_key(p2)) by {
                    assert(va@[i as int].0.0 == p2);
                }
                assert(adj_map(vb@).contains_key(q2)) by {
                    assert(vb@[j as int].0.0 == q2);
                }
                assert(ga.adj[p as int].contains_key(p2));
                assert(gb.adj[q as int].contains_key(q2));
                lemma_pos_bound(p2 as int, q2 as int, nb as int, na as int);
                assert(va@[i as int].1.wf());
                assert(vb@[j as int].1.wf());
            }
            let ghost before = r@;
            proof {
                assert(vb@.take(j + 1).drop_last() =~= vb@.take(j as int));
                assert(vb@.take(j + 1).last() == vb@[j as int]);
            }
            if !va[i].1.is_disjoint(&vb[j].1) {
                let c = p2 as usize * nb + q2 as usize;
                r.push(c);
                proof {
                    assert(c as int == code(p2 as int, q2 as int, nb as int));
                    assert(r@ =~= ri + pair_row(va@[i as int], vb@.take(j + 1), nb as int));
                    assert forall|x2: int, y2: int| 0 <= x2 < na && 0 <= y2 < nb implies (r@.contains(
                        #[trigger] code(x2, y2, nb as int) as usize,
                    ) <==> (ri.contains(code(x2, y2, nb as int) as usize) || exists|j2: int|
                        0 <= j2 < j + 1 && va@[i as int].0.0 == x2 && vb@[j2].0.0 == y2 && !disjoint_of(
                            va@[i as int].1@,
                            #[trigger] vb@[j2].1@,
                        ))) by {
                        lemma_pos_bound(x2, y2, nb as int, na as int);
                        let cc = code(x2, y2, nb as int);
                        lemma_join(cc, nb as int, x2, y2);
                        lemma_join(c as int, nb as int, p2 as int, q2 as int);
                        if r@.contains(cc as usize) && !before.contains(cc as usize) {
                            let t = choose|t: int| 0 <= t < r@.len() && r@[t] == cc as usize;
                            assert(t == before.len());
                            assert(cc == c);
                        }
                        if before.contains(cc as usize) {
                            let t = choose|t: int| 0 <= t < before.len() && before[t] == cc as usize;
                            assert(r@[t] == cc as usize);
                        }
                        if x2 == p2 && y2 == q2 {
                            assert(r@[before.len() as int] == c);
                        }
                    }
                }
            } else {
                proof {
                    assert forall|x2: int, y2: int| 0 <= x2 < na && 0 <= y2 < nb implies (r@.contains(
                        #[trigger] code(x2, y2, nb as int) as usize,
                    ) <==> (ri.contains(code(x2, y2, nb as int) as usize) || exists|j2: int|
                        0 <= j2 < j + 1 && va@[i as int].0.0 == x2 && vb@[j2].0.0 == y2 && !disjoint_of(
                            va@[i as int].1@,
                            #[trigger] vb@[j2].1@,
                        ))) by {
                        if exists|j2: int|
                            0 <= j2 < j + 1 && va@[i as int].0.0 == x2 && vb@[j2].0.0 == y2 && !disjoint_of(
                                va@[i as int].1@,
                                #[trigger] vb@[j2].1@,
                            ) {
                            let j2 = choose|j2: int|
                                0 <= j2 < j + 1 && va@[i as int].0.0 == x2 && vb@[j2].0.0 == y2 && !disjoint_of(
                                    va@[i as int].1@,
                                    #[trigger] vb@[j2].1@,
                                );
                            assert(j2 < j);
                        }
                    }
                }
            }
            j = j + 1;
        }
        proof {
            assert(vb@.take(j as int) =~= vb@);
            assert(va@.take(i + 1).drop_last() =~= va@.take(i as int));
            assert(va@.take(i + 1).last() == va@[i as int]);
            assert(r@ =~= pair_succ(va@.take(i + 1), vb@, nb as int));
            assert forall|p2: int, q2: int| 0 <= p2 < na && 0 <= q2 < nb implies (r@.contains(
                #[trigger] code(p2, q2, nb as int) as usize,
            ) <==> exists|i2: int, j2: int|
                0 <= i2 < i + 1 && 0 <= j2 < vb@.len() && va@[i2].0.0 == p2 && vb@[j2].0.0 == q2 && !disjoint_of(
                    #[trigger] va@[i2].1@,
                    #[trigger] vb@[j2].1@,
                )) by {
                if exists|i2: int, j2: int|
                    0 <= i2 < i + 1 && 0 <= j2 < vb@.len() && va@[i2].0.0 == p2 && vb@[j2].0.0 == q2 && !disjoint_of(
                        #[trigger] va@[i2].1@,
                        #[trigger] vb@[j2].1@,
                    ) {
                    let (i2, j2) = choose|i2: int, j2: int|
                        0 <= i2 < i + 1 && 0 <= j2 < vb@.len() && va@[i2].0.0 == p2 && vb@[j2].0.0 == q2 && !disjoint_of(
                            #[trigger] va@[i2].1@,
                            #[trigger] vb@[j2].1@,
                        );
                    if i2 < i {
                        assert(ri.contains(code(p2, q2, nb as int) as usize));
                    }
                }
            }
        }
        i = i + 1;
    }
    proof {
        assert(va@.take(i as int) =~= va@);
        assert forall|p2: int, q2: int| 0 <= p2 < na && 0 <= q2 < nb implies (r@.contains(
            #[trigger] code(p2, q2, nb as int) as usize,
        ) <==> product_edge(ga, gb, (p as u32, q as u32), (p2 as u32, q2 as u32))) by {
            if product_edge(ga, gb, (p as u32, q as u32), (p2 as u32, q2 as u32)) {
                let i2 = choose|i2: int| 0 <= i2 < va@.len() && (#[trigger] va@[i2]).0.0 == p2 as u32;
                let j2 = choose|j2: int| 0 <= j2 < vb@.len() && (#[trigger] vb@[j2]).0.0 == q2 as u32;
                assert(ga.adj[p as int][p2 as u32] == va@[i2].1@) by {
                    let k = choose|k: int| 0 <= k < va@.len() && (#[trigger] va@[k]).0.0 == p2 as u32;
                    if k != i2 {
                        assert(va@[k].0 != va@[i2].0);
                    }
                }
                assert(gb.adj[q as int][q2 as u32] == vb@[j2].1@) by {
                    let k = choose|k: int| 0 <= k < vb@.len() && (#[trigger] vb@[k]).0.0 == q2 as u32;
                    if k != j2 {
                        assert(vb@[k].0 != vb@[j2].0);
                    }
                }
            }
            if r@.contains(code(p2, q2, nb as int) as usize) {
                let (i2, j2) = choose|i2: int, j2: int|
                    0 <= i2 < va@.len() && 0 <= j2 < vb@.len() && va@[i2].0.0 == p2 && vb@[j2].0.0 == q2 && !disjoint_of(
                        #[trigger] va@[i2].1@,
                        #[trigger] vb@[j2].1@,
                    );
                assert(adj_map(va@).contains_key(p2 as u32)) by {
                    assert(va@[i2].0.0 == p2 as u32);
                }
                assert(adj_map(vb@).contains_key(q2 as u32)) by {
                    assert(vb@[j2].0.0 == q2 as u32);
                }
                assert(ga.adj[p as int][p2 as u32] == va@[i2].1@) by {
                    let k = choose|k: int| 0 <= k < va@.len() && (#[trigger] va@[k]).0.0 == p2 as u32;
                    if k != i2 {
                        assert(va@[k].0 != va@[i2].0);
                    }
                }
                assert(gb.adj[q as int][q2 as u32] == vb@[j2].1@) by {
                    let k = choose|k: int| 0 <= k < vb@.len() && (#[trigger] vb@[k]).0.0 == q2 as u32;
                    if k != j2 {
                        assert(vb@[k].0 != vb@[j2].0);
                    }
                }
            }
        }
    }
    r
}

/// The successors of every product node, node `(p, q)` at `p * nb + q`.
fn product_graph<S: State, T: State>(a: &Buchi<S>, b: &Buchi<T>) -> (r: Vec<Vec<usize>>)
    requires
        a.wf(),
        b.wf(),
        ba_refs_valid(a@),
        ba_refs_valid(b@),
        a@.ids.len() * b@.ids.len() < u32::MAX,
    ensures
        r@.len() == a@.ids.len() * b@.ids.len(),
        graph_wf(r@),
        forall|t: int, y: usize|
            0 <= t < r@.len() && y < r@.len() ==> (#[trigger] r@[t]@.contains(y) <==> product_edge(
                a@,
                b@,
                ((t / (b@.ids.len() as int)) as u32, (t % (b@.ids.len() as int)) as u32),
                (((y as int) / (b@.ids.len() as int)) as u32, ((y as int) % (b@.ids.len() as int)) as u32),
            )),
        adjs(r@) == product_adjs(*a, *b),
{
    let ghost ga = a@;
    let ghost gb = b@;
    let na = a.nodes.nodes.len();
    let nb = b.nodes.nodes.len();
    let ghost nn = na * nb;
    let mut succ: Vec<Vec<usize>> = Vec::new();
    let mut p: usize = 0;
    while p < na
        invariant
            p <= na,
            na == ga.ids.len(),
            nb == gb.ids.len(),
            nn == na * nb,
            nn < u32::MAX,
            a.wf(),
            b.wf(),
            ga == a@,
            gb == b@,
            ba_refs_valid(ga),
            ba_refs_valid(gb),
            succ@.len() == p * nb,
            na == a.nodes.nodes@.len(),
            nb == b.nodes.nodes@.len(),
            forall|t: int| 0 <= t < succ@.len() ==> #[trigger] succ@[t]@ == product_adjs(*a, *b)[t],
            forall|t: int, j: int| 0 <= t < succ@.len() && 0 <= j < succ@[t]@.len() ==> #[trigger] succ@[t]@[j] < nn,
            forall|t: int, y: usize|
                0 <= t < succ@.len() && y < nn ==> (#[trigger] succ@[t]@.contains(y) <==> product_edge(
                    ga,
                    gb,
                    ((t / (nb as int)) as u32, (t % (nb as int)) as u32),
                    (((y as int) / (nb as int)) as u32, ((y as int) % (nb as int)) as u32),
                )),
        decreases na - p,
    {
        let mut q: usize = 0;
        while q < nb
            invariant
                p < na,
                q <= nb,
                na == ga.ids.len(),
                nb == gb.ids.len(),
                nn == na * nb,
                nn < u32::MAX,
                a.wf(),
                b.wf(),
                ga == a@,
                gb == b@,
                ba_refs_valid(ga),
                ba_refs_valid(gb),
                succ@.len() == p * nb + q,
                na == a.nodes.nodes@.len(),
                nb == b.nodes.nodes@.len(),
                forall|t: int| 0 <= t < succ@.len() ==> #[trigger] succ@[t]@ == product_adjs(*a, *b)[t],
                forall|t: int, j: int| 0 <= t < succ@.len() && 0 <= j < succ@[t]@.len() ==> #[trigger] succ@[t]@[j] < nn,
                forall|t: int, y: usize|
                    0 <= t < succ@.len() && y < nn ==> (#[trigger] succ@[t]@.contains(y) <==> product_edge(
                        ga,
                        gb,
                        ((t / (nb as int)) as u32, (t % (nb as int)) as u32),
                        (((y as int) / (nb as int)) as u32, ((y as int) % (nb as int)) as u32),
                    )),
            decreases nb - q,
        {
            let list = product_succ(a, b, p, q);
            let ghost before = succ@;
            succ.push(list);
            proof {
                let t0 = p * nb + q;
                lemma_pos_bound(p as int, q as int, nb as int, na as int);
                lemma_join(t0 as int, nb as int, p as int, q as int);
                assert forall|t: int| 0 <= t < succ@.len() implies #[trigger] succ@[t]@ == product_adjs(*a, *b)[t] by {
                    if t < before.len() {
                        assert(succ@[t] == before[t]);
                    } else {
                        assert(t == t0);
                    }
                }
                assert forall|t: int, y: usize| 0 <= t < succ@.len() && y < nn implies (#[trigger] succ@[t]@.contains(y)
                    <==> product_edge(
                    ga,
                    gb,
                    ((t / (nb as int)) as u32, (t % (nb as int)) as u32),
                    (((y as int) / (nb as int)) as u32, ((y as int) % (nb as int)) as u32),
                )) by {
                    if t < before.len() {
                        assert(succ@[t] == before[t]);
                    } else {
                        lemma_split(y as int, nb as int, na as int);
                        let p2 = (y as int) / (nb as int);
                        let q2 = (y as int) % (nb as int);
                        assert(code(p2, q2, nb as int) == y);
                        assert(list@.contains(code(p2, q2, nb as int) as usize) <==> product_edge(
                            ga,
                            gb,
                            (p as u32, q as u32),
                            (p2 as u32, q2 as u32),
                        ));
                    }
                }
            }
            q = q + 1;
        }
        proof {
            assert((p + 1) * nb == p * nb + nb) by (nonlinear_arith);
        }
        p = p + 1;
    }
    proof {
        assert(adjs(succ@) =~= product_adjs(*a, *b));
    }
    succ
}

impl<'a, 'b, S: State, T: State> ProductBuchi<'a, 'b, S, T> {
    /// The product of the two automata.
    pub fn new(a: &'a Buchi<S>, b: &'b Buchi<T>) -> (r: Self)
        ensures
            r.a == a,
            r.b == b,
    {
        ProductBuchi { a, b }
    }

    /// A cycle of the product through a pair of accepting nodes that a pair
    /// of initial nodes leads to, where the nested depth-first search finds
    /// one.
    pub fn find_accepting_cycle(&self) -> (r: Option<ProductAcceptingCycle>)
        requires
            self.a.wf(),
            self.b.wf(),
            ba_refs_valid(self.a@),
            ba_refs_valid(self.b@),
            self.a@.ids.len() * self.b@.ids.len() < u32::MAX,
        ensures
            match r {
                Some(c) => product_lasso(self.a@, self.b@, pair_ids(c.s1@), pair_ids(c.s2@)),
                None => forall|t1: Seq<(u32, u32)>, t2: Seq<(u32, u32)>| !#[trigger] product_lasso(self.a@, self.b@, t1, t2),
            },
            match nested_spec(
                product_adjs(*self.a, *self.b),
                product_accs(*self.a, *self.b),
                pair_inits(ba_inits(*self.a), ba_inits(*self.b), self.b@.ids.len() as int),
                0,
            ) {
                Some((s1, s2)) => (r matches Some(c) && pair_ids(c.s1@) == pair_seq(s1, self.b@.ids.len() as int)
                    && pair_ids(c.s2@) == pair_seq(s2, self.b@.ids.len() as int)),
                None => r is None,
            },
    {
        let ghost ga = self.a@;
        let ghost gb = self.b@;
        let na = self.a.nodes.nodes.len();
        let nb = self.b.nodes.nodes.len();
        let ghost nn = na * nb;
        let succ = product_graph(self.a, self.b);
        let (_sa, init_a, acc_a) = ba_graph(self.a);
        let (_sb, init_b, acc_b) = ba_graph(self.b);
        let mut init: Vec<usize> = Vec::new();
        let mut i: usize = 0;
        proof {
            assert(init_a@.take(0) =~= Seq::<usize>::empty());
            assert(init@ =~= pair_inits(init_a@.take(0), init_b@, nb as int));
        }
        while i < init_a.len()
            invariant
                init@ == pair_inits(init_a@.take(i as int), init_b@, nb as int),
                i <= init_a@.len(),
                na == ga.ids.len(),
                nb == gb.ids.len(),
                nn == na * nb,
                nn < u32::MAX,
                forall|k: int| 0 <= k < init_a@.len() ==> (#[trigger] init_a@[k]) < na,
                forall|k: int| 0 <= k < init_b@.len() ==> (#[trigger] init_b@[k]) < nb,
                forall|t: int| 0 <= t < init@.len() ==> (#[trigger] init@[t]) < nn,
                forall|y: usize| y < nn ==> (#[trigger] init@.contains(y) <==> exists|k1: int, k2: int|
                    0 <= k1 < i && 0 <= k2 < init_b@.len() && #[trigger] code(init_a@[k1] as int, init_b@[k2] as int, nb as int) == y),
            decreases init_a@.len() - i,
        {
            let mut j: usize = 0;
            let ghost before_i = init@;
            proof {
                assert(init_b@.take(0) =~= Seq::<usize>::empty());
                assert(init@ =~= before_i + init_b@.take(0).map_values(
                    |y: usize| code(init_a@[i as int] as int, y as int, nb as int) as usize,
                ));
            }
            while j < init_b.len()
                invariant
                    init@ == before_i + init_b@.take(j as int).map_values(
                        |y: usize| code(init_a@[i as int] as int, y as int, nb as int) as usize,
                    ),
                    before_i == pair_inits(init_a@.take(i as int), init_b@, nb as int),
                    i < init_a@.len(),
                    j <= init_b@.len(),
                    na == ga.ids.len(),
                    nb == gb.ids.len(),
                    nn == na * nb,
                    nn < u32::MAX,
                    forall|k: int| 0 <= k < init_a@.len() ==> (#[trigger] init_a@[k]) < na,
                    forall|k: int| 0 <= k < init_b@.len() ==> (#[trigger] init_b@[k]) < nb,
                    forall|t: int| 0 <= t < init@.len() ==> (#[trigger] init@[t]) < nn,
                    forall|y: usize| y < nn ==> (#[trigger] init@.contains(y) <==> (before_i.contains(y) || exists|k2: int|
                        0 <= k2 < j && #[trigger] code(init_a@[i as int] as int, init_b@[k2] as int, nb as int) == y)),
                    forall|y: usize| y < nn ==> (#[trigger] before_i.contains(y) <==> exists|k1: int, k2: int|
                        0 <= k1 < i && 0 <= k2 < init_b@.len() && #[trigger] code(init_a@[k1] as int, init_b@[k2] as int, nb as int) == y),
                decreases init_b@.len() - j,
            {
                proof {
                    lemma_pos_bound(init_a@[i as int] as int, init_b@[j as int] as int, nb as int, na as int);
                }
                let c = init_a[i] * nb + init_b[j];
                let ghost before = init@;
                init.push(c);
                proof {
                    assert(init_b@.take(j + 1) =~= init_b@.take(j as int).push(init_b@[j as int]));
                    assert(init@ =~= before_i + init_b@.take(j + 1).map_values(
                        |y: usize| code(init_a@[i as int] as int, y as int, nb as int) as usize,
                    ));
                    assert forall|y: usize| y < nn implies (#[trigger] init@.contains(y) <==> (before_i.contains(y) || exists|k2: int|
                        0 <= k2 < j + 1 && #[trigger] code(init_a@[i as int] as int, init_b@[k2] as int, nb as int) == y)) by {
                        if init@.contains(y) && !before.contains(y) {
                            let t = choose|t: int| 0 <= t < init@.len() && init@[t] == y;
                            assert(t == before.len());
                            assert(code(init_a@[i as int] as int, init_b@[j as int] as int, nb as int) == y);
                        }
                        if before.contains(y) {
                            let t = choose|t: int| 0 <= t < before.len() && before[t] == y;
                            assert(init@[t] == y);
                        }
                        if exists|k2: int| 0 <= k2 < j + 1 && #[trigger] code(init_a@[i as int] as int, init_b@[k2] as int, nb as int) == y {
                            let k2 = choose|k2: int| 0 <= k2 < j + 1 && #[trigger] code(init_a@[i as int] as int, init_b@[k2] as int, nb as int) == y;
                            if k2 == j {
                                assert(init@[before.len() as int] == y);
                            }
                        }
                    }
                }
                j = j + 1;
            }
            proof {
                assert(init_b@.take(j as int) =~= init_b@);
                assert(init_a@.take(i + 1).drop_last() =~= init_a@.take(i as int));
                assert(init_a@.take(i + 1).last() == init_a@[i as int]);
                assert(init@ =~= pair_inits(init_a@.take(i + 1), init_b@, nb as int));
                assert forall|y: usize| y < nn implies (#[trigger] init@.contains(y) <==> exists|k1: int, k2: int|
                    0 <= k1 < i + 1 && 0 <= k2 < init_b@.len() && #[trigger] code(init_a@[k1] as int, init_b@[k2] as int, nb as int) == y) by {
                    if exists|k1: int, k2: int|
                        0 <= k1 < i + 1 && 0 <= k2 < init_b@.len() && #[trigger] code(init_a@[k1] as int, init_b@[k2] as int, nb as int) == y {
                        let (k1, k2) = choose|k1: int, k2: int|
                            0 <= k1 < i + 1 && 0 <= k2 < init_b@.len() && #[trigger] code(init_a@[k1] as int, init_b@[k2] as int, nb as int) == y;
                        if k1 < i {
                            assert(before_i.contains(y));
                        }
                    }
                }
            }
            i = i + 1;
        }
        let mut acc: Vec<bool> = Vec::new();
        let mut t: usize = 0;
        while t < na * nb
            invariant
                t <= nn,
                nn == na * nb,
                na == ga.ids.len(),
                nb == gb.ids.len(),
                nn < u32::MAX,
                acc_a@.len() == na,
                acc_b@.len() == nb,
                acc@.len() == t,
                forall|k: int| 0 <= k < t ==> (#[trigger] acc@[k]) == (acc_a@[k / (nb as int)] && acc_b@[k % (nb as int)]),
            decreases nn - t,
        {
            proof {
                lemma_split(t as int, nb as int, na as int);
            }
            acc.push(acc_a[t / nb] && acc_b[t % nb]);
            t = t + 1;
        }
        proof {
            assert(init_a@.take(i as int) =~= init_a@);
            assert(acc@ =~= product_accs(*self.a, *self.b));
        }
        match nested_dfs(&succ, &init, &acc) {
            Some((s1, s2)) => {
                proof {
                    assert(acc@.len() > 0);
                    assert(nb > 0) by (nonlinear_arith)
                        requires
                            na * nb > 0,
                    ;
                    lemma_product_lasso(ga, gb, succ@, init@, acc@, s1@, s2@, init_a@, init_b@, acc_a@, acc_b@);
                }
                let c = ProductAcceptingCycle { s1: to_pairs(&s1, nb), s2: to_pairs(&s2, nb) };
                Some(c)
            },
            None => {
                proof {
                    assert forall|t1: Seq<(u32, u32)>, t2: Seq<(u32, u32)>| !#[trigger] product_lasso(ga, gb, t1, t2) by {
                        if product_lasso(ga, gb, t1, t2) {
                            lemma_product_lasso_back(ga, gb, succ@, init@, acc@, init_a@, init_b@, acc_a@, acc_b@, t1, t2);
                        }
                    }
                }
                None
            },
        }
    }
}

/// The product nodes as pairs of node ids.
pub(crate) fn to_pairs(v: &Vec<usize>, nb: usize) -> (r: Vec<(NodeId, NodeId)>)
    requires
        nb > 0,
        forall|i: int| 0 <= i < v@.len() ==> (#[trigger] v@[i]) < u32::MAX,
    ensures
        pair_ids(r@) == pair_seq(v@, nb as int),
{
    let mut r: Vec<(NodeId, NodeId)> = Vec::new();
    let mut i: usize = 0;
    while i < v.len()
        invariant
            i <= v@.len(),
            nb > 0,
            forall|t: int| 0 <= t < v@.len() ==> (#[trigger] v@[t]) < u32::MAX,
            pair_ids(r@) == pair_seq(v@.take(i as int), nb as int),
        decreases v@.len() - i,
    {
        let x = v[i];
        proof {
            assert((x as int) < (x + 1) * nb) by (nonlinear_arith)
                requires
                    nb > 0,
            ;
            lemma_split(x as int, nb as int, (x + 1) as int);
        }
        r.push((NodeId((x / nb) as u32), NodeId((x % nb) as u32)));
        proof {
            assert(pair_seq(v@.take(i + 1), nb as int) =~= pair_seq(v@.take(i as int), nb as int).push(
                (((x as int) / (nb as int)) as u32, ((x as int) % (nb as int)) as u32),
            ));
            assert(pair_ids(r@) =~= pair_seq(v@.take(i + 1), nb as int));
        }
        i = i + 1;
    }
    proof {
        assert(v@.take(i as int) =~= v@);
    }
    r
}

proof fn lemma_product_path<V, W>(ga: BaV<V>, gb: BaV<W>, succ: Seq<Vec<usize>>, p: Seq<usize>)
    requires
        gb.ids.len() > 0,
        succ.len() == ga.ids.len() * gb.ids.len(),
        graph_wf(succ),
        forall|t: int, y: usize|
            0 <= t < succ.len() && y < succ.len() ==> (#[trigger] succ[t]@.contains(y) <==> product_edge(
                ga,
                gb,
                ((t / (gb.ids.len() as int)) as u32, (t % (gb.ids.len() as int)) as u32),
                (((y as int) / (gb.ids.len() as int)) as u32, ((y as int) % (gb.ids.len() as int)) as u32),
            )),
        is_path(succ, p),
    ensures
        product_path(ga, gb, pair_seq(p, gb.ids.len() as int)),
        forall|i: int| 0 <= i < p.len() - 1 ==> (#[trigger] p[i]) < succ.len(),
{
    let nb = gb.ids.len() as int;
    assert forall|i: int| 0 <= i < p.len() - 1 implies #[trigger] product_edge(
        ga,
        gb,
        pair_seq(p, nb)[i],
        pair_seq(p, nb)[i + 1],
    ) by {
        assert(edge(succ, p[i], p[i + 1]));
        let j = choose|j: int| 0 <= j < succ[p[i] as int]@.len() && succ[p[i] as int]@[j] == p[i + 1];
        assert(succ[p[i] as int]@[j] < succ.len());
        assert(succ[p[i] as int]@.contains(p[i + 1]));
    }
    assert forall|i: int| 0 <= i < p.len() - 1 implies (#[trigger] p[i]) < succ.len() by {
        assert(edge(succ, p[i], p[i + 1]));
    }
}

proof fn lemma_product_lasso<V, W>(
    ga: BaV<V>,
    gb: BaV<W>,
    succ: Seq<Vec<usize>>,
    init: Seq<usize>,
    acc: Seq<bool>,
    s1: Seq<usize>,
    s2: Seq<usize>,
    init_a: Seq<usize>,
    init_b: Seq<usize>,
    acc_a: Seq<bool>,
    acc_b: Seq<bool>,
)
    requires
        gb.ids.len() > 0,
        succ.len() == ga.ids.len() * gb.ids.len(),
        succ.len() < u32::MAX,
        graph_wf(succ),
        forall|t: int, y: usize|
            0 <= t < succ.len() && y < succ.len() ==> (#[trigger] succ[t]@.contains(y) <==> product_edge(
                ga,
                gb,
                ((t / (gb.ids.len() as int)) as u32, (t % (gb.ids.len() as int)) as u32),
                (((y as int) / (gb.ids.len() as int)) as u32, ((y as int) % (gb.ids.len() as int)) as u32),
            )),
        forall|k: int| 0 <= k < init_a.len() ==> (#[trigger] init_a[k]) < ga.ids.len(),
        forall|k: int| 0 <= k < init_b.len() ==> (#[trigger] init_b[k]) < gb.ids.len(),
        forall|y: usize| y < ga.ids.len() ==> (#[trigger] init_a.contains(y) <==> ga.init.contains(y as u32)),
        forall|y: usize| y < gb.ids.len() ==> (#[trigger] init_b.contains(y) <==> gb.init.contains(y as u32)),
        forall|y: usize| y < succ.len() ==> (#[trigger] init.contains(y) <==> exists|k1: int, k2: int|
            0 <= k1 < init_a.len() && 0 <= k2 < init_b.len() && #[trigger] code(init_a[k1] as int, init_b[k2] as int, gb.ids.len() as int) == y),
        forall|t: int| 0 <= t < init.len() ==> (#[trigger] init[t]) < succ.len(),
        acc_a.len() == ga.ids.len(),
        acc_b.len() == gb.ids.len(),
        forall|y: int| 0 <= y < acc_a.len() ==> (#[trigger] acc_a[y] <==> ga.accepting.contains(y as u32)),
        forall|y: int| 0 <= y < acc_b.len() ==> (#[trigger] acc_b[y] <==> gb.accepting.contains(y as u32)),
        acc.len() == succ.len(),
        forall|k: int| 0 <= k < acc.len() ==> (#[trigger] acc[k]) == (acc_a[k / (gb.ids.len() as int)] && acc_b[k % (gb.ids.len() as int)]),
        is_lasso(succ, init, acc, s1, s2),
    ensures
        product_lasso(ga, gb, pair_seq(s1, gb.ids.len() as int), pair_seq(s2, gb.ids.len() as int)),
        forall|i: int| 0 <= i < s1.len() ==> (#[trigger] s1[i]) < u32::MAX,
        forall|i: int| 0 <= i < s2.len() ==> (#[trigger] s2[i]) < u32::MAX,
{
    let nb = gb.ids.len() as int;
    let na = ga.ids.len() as int;
    lemma_product_path(ga, gb, succ, s1);
    lemma_product_path(ga, gb, succ, s2);
    let q1 = pair_seq(s1, nb);
    let q2 = pair_seq(s2, nb);
    // the accepting node
    let x = s2[0];
    lemma_split(x as int, nb, na);
    assert(acc[x as int]);
    assert(acc_a[(x as int) / nb] && acc_b[(x as int) % nb]);
    // the cycle closes
    assert(edge(succ, s2.last(), s2[0]));
    let j = choose|j: int| 0 <= j < succ[s2.last() as int]@.len() && succ[s2.last() as int]@[j] == s2[0];
    assert(succ[s2.last() as int]@[j] < succ.len());
    assert(succ[s2.last() as int]@.contains(s2[0]));
    assert(q2.last() == q2[s2.len() - 1]);
    // the initial node
    let s = if s1.len() > 0 { s1[0] } else { s2[0] };
    assert(init.contains(s));
    let ti = choose|ti: int| 0 <= ti < init.len() && init[ti] == s;
    assert(init[ti] < succ.len());
    let (k1, k2) = choose|k1: int, k2: int|
        0 <= k1 < init_a.len() && 0 <= k2 < init_b.len() && #[trigger] code(init_a[k1] as int, init_b[k2] as int, nb) == s;
    lemma_join(s as int, nb, init_a[k1] as int, init_b[k2] as int);
    assert(init_a.contains(init_a[k1]));
    assert(init_b.contains(init_b[k2]));
    if s1.len() > 0 {
        assert(edge(succ, s1.last(), s2[0]));
        let j1 = choose|j1: int| 0 <= j1 < succ[s1.last() as int]@.len() && succ[s1.last() as int]@[j1] == s2[0];
        assert(succ[s1.last() as int]@.contains(s2[0]));
        assert(q1.last() == q1[s1.len() - 1]);
    }
    assert forall|i: int| 0 <= i < s1.len() implies (#[trigger] s1[i]) < u32::MAX by {
        if i < s1.len() - 1 {
        } else {
            assert(edge(succ, s1.last(), s2[0]));
        }
    }
    assert forall|i: int| 0 <= i < s2.len() implies (#[trigger] s2[i]) < u32::MAX by {
        if i < s2.len() - 1 {
        } else {
            assert(edge(succ, s2.last(), s2[0]));
        }
    }
}

/// The codes of a list of product nodes.
pub open spec fn code_seq(t: Seq<(u32, u32)>, nb: int) -> Seq<usize> {
    t.map_values(|p: (u32, u32)| code(p.0 as int, p.1 as int, nb) as usize)
}

proof fn lemma_code_of(a: u32, b: u32, na: int, nb: int)
    requires
        a < na,
        b < nb,
        na * nb < u32::MAX,
    ensures
        0 <= code(a as int, b as int, nb) < na * nb,
        code(a as int, b as int, nb) / nb == a,
        code(a as int, b as int, nb) % nb == b,
{
    lemma_pos_bound(a as int, b as int, nb, na);
    lemma_join(code(a as int, b as int, nb), nb, a as int, b as int);
}

proof fn lemma_product_edge_back<V, W>(ga: BaV<V>, gb: BaV<W>, succ: Seq<Vec<usize>>, x: (u32, u32), y: (u32, u32))
    requires
        ba_refs_valid(ga),
        ba_refs_valid(gb),
        succ.len() == ga.ids.len() * gb.ids.len(),
        succ.len() < u32::MAX,
        forall|t: int, y: usize|
            0 <= t < succ.len() && y < succ.len() ==> (#[trigger] succ[t]@.contains(y) <==> product_edge(
                ga,
                gb,
                ((t / (gb.ids.len() as int)) as u32, (t % (gb.ids.len() as int)) as u32),
                (((y as int) / (gb.ids.len() as int)) as u32, ((y as int) % (gb.ids.len() as int)) as u32),
            )),
        product_edge(ga, gb, x, y),
    ensures
        edge(succ, code(x.0 as int, x.1 as int, gb.ids.len() as int) as usize, code(y.0 as int, y.1 as int, gb.ids.len() as int) as usize),
{
    let na = ga.ids.len() as int;
    let nb = gb.ids.len() as int;
    assert(y.0 < na && y.1 < nb);
    lemma_code_of(x.0, x.1, na, nb);
    lemma_code_of(y.0, y.1, na, nb);
    let cx = code(x.0 as int, x.1 as int, nb);
    let cy = code(y.0 as int, y.1 as int, nb);
    assert(((cx / nb) as u32, (cx % nb) as u32) == x);
    assert((((cy as usize) as int / nb) as u32, ((cy as usize) as int % nb) as u32) == y);
    assert(succ[cx]@.contains(cy as usize));
}

proof fn lemma_product_path_back<V, W>(ga: BaV<V>, gb: BaV<W>, succ: Seq<Vec<usize>>, t: Seq<(u32, u32)>)
    requires
        ba_refs_valid(ga),
        ba_refs_valid(gb),
        succ.len() == ga.ids.len() * gb.ids.len(),
        succ.len() < u32::MAX,
        forall|t: int, y: usize|
            0 <= t < succ.len() && y < succ.len() ==> (#[trigger] succ[t]@.contains(y) <==> product_edge(
                ga,
                gb,
                ((t / (gb.ids.len() as int)) as u32, (t % (gb.ids.len() as int)) as u32),
                (((y as int) / (gb.ids.len() as int)) as u32, ((y as int) % (gb.ids.len() as int)) as u32),
            )),
        product_path(ga, gb, t),
    ensures
        is_path(succ, code_seq(t, gb.ids.len() as int)),
{
    let p = code_seq(t, gb.ids.len() as int);
    assert forall|i: int| 0 <= i < p.len() - 1 implies #[trigger] edge(succ, p[i], p[i + 1]) by {
        assert(product_edge(ga, gb, t[i], t[i + 1]));
        lemma_product_edge_back(ga, gb, succ, t[i], t[i + 1]);
    }
}

/// A lasso of the product is one of its graph.
proof fn lemma_product_lasso_back<V, W>(
    ga: BaV<V>,
    gb: BaV<W>,
    succ: Seq<Vec<usize>>,
    init: Seq<usize>,
    acc: Seq<bool>,
    init_a: Seq<usize>,
    init_b: Seq<usize>,
    acc_a: Seq<bool>,
    acc_b: Seq<bool>,
    t1: Seq<(u32, u32)>,
    t2: Seq<(u32, u32)>,
)
    requires
        ba_refs_valid(ga),
        ba_refs_valid(gb),
        succ.len() == ga.ids.len() * gb.ids.len(),
        succ.len() < u32::MAX,
        forall|t: int, y: usize|
            0 <= t < succ.len() && y < succ.len() ==> (#[trigger] succ[t]@.contains(y) <==> product_edge(
                ga,
                gb,
                ((t / (gb.ids.len() as int)) as u32, (t % (gb.ids.len() as int)) as u32),
                (((y as int) / (gb.ids.len() as int)) as u32, ((y as int) % (gb.ids.len() as int)) as u32),
            )),
        forall|y: usize| y < ga.ids.len() ==> (#[trigger] init_a.contains(y) <==> ga.init.contains(y as u32)),
        forall|y: usize| y < gb.ids.len() ==> (#[trigger] init_b.contains(y) <==> gb.init.contains(y as u32)),
        forall|y: usize| y < succ.len() ==> (#[trigger] init.contains(y) <==> exists|k1: int, k2: int|
            0 <= k1 < init_a.len() && 0 <= k2 < init_b.len() && #[trigger] code(init_a[k1] as int, init_b[k2] as int, gb.ids.len() as int) == y),
        acc_a.len() == ga.ids.len(),
        acc_b.len() == gb.ids.len(),
        forall|y: int| 0 <= y < acc_a.len() ==> (#[trigger] acc_a[y] <==> ga.accepting.contains(y as u32)),
        forall|y: int| 0 <= y < acc_b.len() ==> (#[trigger] acc_b[y] <==> gb.accepting.contains(y as u32)),
        acc.len() == succ.len(),
        forall|k: int| 0 <= k < acc.len() ==> (#[trigger] acc[k]) == (acc_a[k / (gb.ids.len() as int)] && acc_b[k % (gb.ids.len() as int)]),
        product_lasso(ga, gb, t1, t2),
    ensures
        is_lasso(succ, init, acc, code_seq(t1, gb.ids.len() as int), code_seq(t2, gb.ids.len() as int)),
{
    let na = ga.ids.len() as int;
    let nb = gb.ids.len() as int;
    let s1 = code_seq(t1, nb);
    let s2 = code_seq(t2, nb);
    lemma_product_path_back(ga, gb, succ, t1);
    lemma_product_path_back(ga, gb, succ, t2);
    // the accepting pair
    let x = t2[0];
    assert(x.0 < na && x.1 < nb);
    lemma_code_of(x.0, x.1, na, nb);
    assert(s2[0] == code(x.0 as int, x.1 as int, nb) as usize);
    assert(acc[s2[0] as int]);
    // the cycle closes
    lemma_product_edge_back(ga, gb, succ, t2.last(), t2[0]);
    assert(s2.last() == s2[t2.len() - 1]);
    // the path leads to the cycle
    if t1.len() > 0 {
        lemma_product_edge_back(ga, gb, succ, t1.last(), t2[0]);
        assert(s1.last() == s1[t1.len() - 1]);
    }
    // the first pair is a pair of initial nodes
    let st = if t1.len() > 0 { t1[0] } else { t2[0] };
    assert(ga.init.contains(st.0) && gb.init.contains(st.1));
    assert(st.0 < na && st.1 < nb);
    assert(init_a.contains(st.0 as usize));
    assert(init_b.contains(st.1 as usize));
    let k1 = choose|k1: int| 0 <= k1 < init_a.len() && init_a[k1] == st.0 as usize;
    let k2 = choose|k2: int| 0 <= k2 < init_b.len() && init_b[k2] == st.1 as usize;
    lemma_code_of(st.0, st.1, na, nb);
    let c = code(st.0 as int, st.1 as int, nb);
    assert(code(init_a[k1] as int, init_b[k2] as int, nb) == (c as usize));
    assert(init.contains(c as usize));
    assert(lasso_start(s1, s2) == c as usize);
}

} // verus!
