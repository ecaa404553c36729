//! The tableau construction terminates on every formula: every formula it
//! handles is a subformula of the one it started from, each step on a node
//! shrinks the total size of the formulas still to be processed, and each
//! node added to the node set brings a pair of `oldf` and `next` sets that
//! no earlier node has, of which there are finitely many.
use vstd::prelude::*;
use vstd::set_lib::*;

use super::automata::{
    contradicts, expand_spec, expand_terminates, find_match, initial_node, insert_by_name, is_first_match,
    is_least, is_name_pos, least, lemma_expand_fuel_mono, new1_of, new2_of, next1_of, NodeV,
};
use super::expression::{nnf_size, NnfV};
use super::gba::until_pairs;
use super::formula_set::{lemma_nnf_order_basics, lemma_nnf_order_trans, nnf_order};

verus! {

/// The total size of the formulas of a finite set.
pub open spec fn wsum(s: Set<NnfV>) -> nat
    decreases s.len(),
    when s.finite()
{
    if s.len() == 0 {
        0
    } else {
        let x = s.choose();
        nnf_size(x) + wsum(s.remove(x))
    }
}

proof fn lemma_wsum_remove(s: Set<NnfV>, x: NnfV)
    requires
        s.finite(),
        s.contains(x),
    ensures
        wsum(s) == nnf_size(x) + wsum(s.remove(x)),
    decreases s.len(),
{
    assert(s.len() > 0);
    let y = s.choose();
    if y != x {
        lemma_wsum_remove(s.remove(y), x);
        lemma_wsum_remove(s.remove(x), y);
        assert(s.remove(y).remove(x) =~= s.remove(x).remove(y));
    }
}

proof fn lemma_wsum_empty(s: Set<NnfV>)
    requires
        s.finite(),
        s.len() == 0,
    ensures
        wsum(s) == 0,
{
}

proof fn lemma_wsum_subset(a: Set<NnfV>, b: Set<NnfV>)
    requires
        b.finite(),
        a.subset_of(b),
    ensures
        a.finite(),
        wsum(a) <= wsum(b),
    decreases b.len(),
{
    lemma_set_subset_finite(b, a);
    if a.len() > 0 {
        let x = a.choose();
        assert(a.contains(x));
        lemma_wsum_remove(a, x);
        lemma_wsum_remove(b, x);
        lemma_wsum_subset(a.remove(x), b.remove(x));
    } else {
        lemma_wsum_empty(a);
    }
}

proof fn lemma_wsum_union(a: Set<NnfV>, b: Set<NnfV>)
    requires
        a.finite(),
        b.finite(),
    ensures
        a.union(b).finite(),
        wsum(a.union(b)) <= wsum(a) + wsum(b),
    decreases b.len(),
{
    if b.len() == 0 {
        assert(b =~= Set::empty()) by {
            if exists|y: NnfV| b.contains(y) {
                let y = choose|y: NnfV| b.contains(y);
                assert(b.remove(y).len() + 1 == b.len());
            }
        }
        assert(a.union(b) =~= a);
    } else {
        let x = b.choose();
        assert(b.contains(x));
        lemma_wsum_remove(b, x);
        lemma_wsum_union(a, b.remove(x));
        let u = a.union(b.remove(x));
        if u.contains(x) {
            assert(a.union(b) =~= u);
        } else {
            assert(a.union(b).remove(x) =~= u);
            lemma_wsum_remove(a.union(b), x);
        }
    }
}

proof fn lemma_wsum_single(x: NnfV)
    ensures
        wsum(set![x]) == nnf_size(x),
{
    lemma_wsum_remove(set![x], x);
    assert(set![x].remove(x) =~= Set::empty());
    lemma_wsum_empty(Set::<NnfV>::empty());
}

proof fn lemma_wsum_pair(x: NnfV, y: NnfV)
    ensures
        set![x, y].finite(),
        wsum(set![x, y]) <= nnf_size(x) + nnf_size(y),
{
    lemma_wsum_single(x);
    lemma_wsum_single(y);
    assert(set![x, y] =~= set![x].union(set![y]));
    lemma_wsum_union(set![x], set![y]);
}

/// A finite non-empty set of formulas has a least one.
proof fn lemma_least_exists(s: Set<NnfV>)
    requires
        s.finite(),
        s.len() > 0,
    ensures
        is_least(s, least(s)),
    decreases s.len(),
{
    let x = s.choose();
    assert(s.contains(x));
    let r = s.remove(x);
    if r.len() == 0 {
        assert forall|y: NnfV| s.contains(y) implies y == x || nnf_order(x, y) < 0 by {
            if y != x {
                assert(r.contains(y));
            }
        }
        assert(is_least(s, x));
    } else {
        lemma_least_exists(r);
        let m = least(r);
        lemma_nnf_order_basics(x, m);
        if nnf_order(x, m) < 0 {
            assert forall|y: NnfV| s.contains(y) implies y == x || nnf_order(x, y) < 0 by {
                if y != x {
                    assert(r.contains(y));
                    if y != m {
                        lemma_nnf_order_trans(x, m, y);
                    }
                }
            }
            assert(is_least(s, x));
        } else {
            assert forall|y: NnfV| s.contains(y) implies y == m || nnf_order(m, y) < 0 by {
                if y != x {
                    assert(r.contains(y));
                }
            }
            assert(is_least(s, m));
        }
    }
}

/// The subsets of a set.
pub open spec fn subsets<A>(s: Set<A>) -> Set<Set<A>> {
    Set::new(|a: Set<A>| a.subset_of(s))
}

proof fn lemma_subsets_finite<A>(s: Set<A>)
    requires
        s.finite(),
    ensures
        subsets(s).finite(),
    decreases s.len(),
{
    if s.len() == 0 {
        assert(s =~= Set::empty()) by {
            if exists|y: A| s.contains(y) {
                let y = choose|y: A| s.contains(y);
                assert(s.remove(y).len() + 1 == s.len());
            }
        }
        assert(subsets(s) =~= set![Set::<A>::empty()]) by {
            assert forall|a: Set<A>| subsets(s).contains(a) implies a == Set::<A>::empty() by {
                assert(a =~= Set::<A>::empty());
            }
        }
    } else {
        let x = s.choose();
        let r = s.remove(x);
        lemma_subsets_finite(r);
        let f = |a: Set<A>| a.insert(x);
        subsets(r).lemma_map_finite(f);
        assert(subsets(s) =~= subsets(r).union(subsets(r).map(f))) by {
            assert forall|a: Set<A>| subsets(s).contains(a) implies subsets(r).union(subsets(r).map(f)).contains(a) by {
                if a.contains(x) {
                    let b = a.remove(x);
                    assert(subsets(r).contains(b));
                    assert(f(b) =~= a);
                } else {
                    assert(subsets(r).contains(a));
                }
            }
            assert forall|a: Set<A>| subsets(r).union(subsets(r).map(f)).contains(a) implies subsets(s).contains(a) by {
                if !subsets(r).contains(a) {
                    let b = choose|b: Set<A>| subsets(r).contains(b) && f(b) == a;
                }
            }
        }
    }
}

/// The subformulas of a formula, itself included.
pub open spec fn subformulas(f: NnfV) -> Set<NnfV>
    decreases f,
{
    match f {
        NnfV::Lit { .. } | NnfV::Bool(_) => set![f],
        NnfV::X(a) => set![f].union(subformulas(*a)),
        NnfV::U(a, b) | NnfV::V(a, b) | NnfV::Or(a, b) | NnfV::And(a, b) => set![f].union(subformulas(*a)).union(
            subformulas(*b),
        ),
    }
}

/// The direct subformulas of `g` lie in `c`.
pub open spec fn parts_in(g: NnfV, c: Set<NnfV>) -> bool {
    match g {
        NnfV::Lit { .. } | NnfV::Bool(_) => true,
        NnfV::X(a) => c.contains(*a),
        NnfV::U(a, b) | NnfV::V(a, b) | NnfV::Or(a, b) | NnfV::And(a, b) => c.contains(*a) && c.contains(*b),
    }
}

/// `c` is finite and holds the direct subformulas of each of its formulas.
pub open spec fn closure_wf(c: Set<NnfV>) -> bool {
    &&& c.finite()
    &&& forall|g: NnfV| #[trigger] c.contains(g) ==> parts_in(g, c)
}

proof fn lemma_subformulas_within(f: NnfV, g: NnfV)
    requires
        subformulas(f).contains(g),
    ensures
        subformulas(g).subset_of(subformulas(f)),
    decreases f,
{
    if g != f {
        match f {
            NnfV::Lit { .. } | NnfV::Bool(_) => {},
            NnfV::X(a) => lemma_subformulas_within(*a, g),
            NnfV::U(a, b) | NnfV::V(a, b) | NnfV::Or(a, b) | NnfV::And(a, b) => {
                if subformulas(*a).contains(g) {
                    lemma_subformulas_within(*a, g);
                } else {
                    lemma_subformulas_within(*b, g);
                }
            },
        }
    }
}

proof fn lemma_subformulas_closure(f: NnfV)
    ensures
        closure_wf(subformulas(f)),
        subformulas(f).contains(f),
    decreases f,
{
    match f {
        NnfV::Lit { .. } | NnfV::Bool(_) => {},
        NnfV::X(a) => lemma_subformulas_closure(*a),
        NnfV::U(a, b) | NnfV::V(a, b) | NnfV::Or(a, b) | NnfV::And(a, b) => {
            lemma_subformulas_closure(*a);
            lemma_subformulas_closure(*b);
        },
    }
    let c = subformulas(f);
    assert forall|g: NnfV| #[trigger] c.contains(g) implies parts_in(g, c) by {
        lemma_subformulas_within(f, g);
        match g {
            NnfV::Lit { .. } | NnfV::Bool(_) => {},
            NnfV::X(a) => {
                assert(subformulas(*a).contains(*a));
            },
            NnfV::U(a, b) | NnfV::V(a, b) | NnfV::Or(a, b) | NnfV::And(a, b) => {
                assert(subformulas(*a).contains(*a));
                assert(subformulas(*b).contains(*b));
            },
        }
    }
}

/// The `oldf` and `next` sets of a node as one set of tagged formulas:
/// `(false, x)` for `x` in `oldf`, `(true, x)` for `x` in `next`.
pub open spec fn tag(n: NodeV) -> Set<(bool, NnfV)> {
    Set::new(|e: (bool, NnfV)| if e.0 { n.next.contains(e.1) } else { n.oldf.contains(e.1) })
}

/// The tagged formulas over `c`.
pub open spec fn tagged(c: Set<NnfV>) -> Set<(bool, NnfV)> {
    Set::new(|e: (bool, NnfV)| c.contains(e.1))
}

/// The tagged pairs of the nodes of a node set.
pub open spec fn tags(ns: Seq<NodeV>) -> Set<Set<(bool, NnfV)>> {
    Set::new(|t: Set<(bool, NnfV)>| exists|i: int| 0 <= i < ns.len() && #[trigger] tag(ns[i]) == t)
}

/// The formulas of a node lie in `c`.
pub open spec fn node_in(c: Set<NnfV>, n: NodeV) -> bool {
    &&& n.oldf.subset_of(c)
    &&& n.next.subset_of(c)
    &&& n.newf.subset_of(c)
}

/// The `oldf` and `next` sets of every node of a node set lie in `c`.
pub open spec fn nodes_in(c: Set<NnfV>, ns: Seq<NodeV>) -> bool {
    forall|i: int| 0 <= i < ns.len() ==> (#[trigger] ns[i]).oldf.subset_of(c) && ns[i].next.subset_of(c)
}

/// How many pairs of `oldf` and `next` sets over `c` no node has yet.
pub open spec fn room(c: Set<NnfV>, ns: Seq<NodeV>) -> nat {
    (subsets(tagged(c)).len() - tags(ns).len()) as nat
}

proof fn lemma_tagged_finite(c: Set<NnfV>)
    requires
        c.finite(),
    ensures
        tagged(c).finite(),
        subsets(tagged(c)).finite(),
{
    let f0 = |x: NnfV| (false, x);
    let f1 = |x: NnfV| (true, x);
    c.lemma_map_finite(f0);
    c.lemma_map_finite(f1);
    assert(tagged(c) =~= c.map(f0).union(c.map(f1))) by {
        assert forall|e: (bool, NnfV)| tagged(c).contains(e) implies c.map(f0).union(c.map(f1)).contains(e) by {
            if e.0 {
                assert(f1(e.1) == e);
            } else {
                assert(f0(e.1) == e);
            }
        }
    }
    lemma_subsets_finite(tagged(c));
}

proof fn lemma_tags_bound(c: Set<NnfV>, ns: Seq<NodeV>)
    requires
        c.finite(),
        nodes_in(c, ns),
    ensures
        tags(ns).subset_of(subsets(tagged(c))),
        tags(ns).finite(),
        tags(ns).len() <= subsets(tagged(c)).len(),
{
    lemma_tagged_finite(c);
    assert forall|t: Set<(bool, NnfV)>| tags(ns).contains(t) implies subsets(tagged(c)).contains(t) by {
        let i = choose|i: int| 0 <= i < ns.len() && #[trigger] tag(ns[i]) == t;
        assert(ns[i].oldf.subset_of(c) && ns[i].next.subset_of(c));
    }
    lemma_set_subset_finite(subsets(tagged(c)), tags(ns));
    lemma_len_subset(tags(ns), subsets(tagged(c)));
}

proof fn lemma_tag_same(a: NodeV, b: NodeV)
    requires
        tag(a) == tag(b),
    ensures
        a.oldf == b.oldf,
        a.next == b.next,
{
    assert(a.oldf =~= b.oldf) by {
        assert forall|x: NnfV| a.oldf.contains(x) <==> b.oldf.contains(x) by {
            let e = (false, x);
            assert(tag(a).contains(e) == a.oldf.contains(e.1));
            assert(tag(b).contains(e) == b.oldf.contains(e.1));
        }
    }
    assert(a.next =~= b.next) by {
        assert forall|x: NnfV| a.next.contains(x) <==> b.next.contains(x) by {
            let e = (true, x);
            assert(tag(a).contains(e) == a.next.contains(e.1));
            assert(tag(b).contains(e) == b.next.contains(e.1));
        }
    }
}

proof fn lemma_first_match(ns: Seq<NodeV>, oldf: Set<NnfV>, next: Set<NnfV>, j: int)
    requires
        0 <= j < ns.len(),
        ns[j].oldf == oldf,
        ns[j].next == next,
    ensures
        0 <= find_match(ns, oldf, next) < ns.len(),
    decreases j,
{
    if exists|j2: int| 0 <= j2 < j && ns[j2].oldf == oldf && ns[j2].next == next {
        let j2 = choose|j2: int| 0 <= j2 < j && ns[j2].oldf == oldf && ns[j2].next == next;
        lemma_first_match(ns, oldf, next, j2);
    } else {
        assert(is_first_match(ns, oldf, next, j));
    }
}

proof fn lemma_insert_tags(c: Set<NnfV>, ns: Seq<NodeV>, n: NodeV)
    requires
        nodes_in(c, ns),
        n.oldf.subset_of(c),
        n.next.subset_of(c),
    ensures
        nodes_in(c, insert_by_name(ns, n)),
        tags(insert_by_name(ns, n)) == tags(ns).insert(tag(n)),
{
    let k = if exists|k: int| is_name_pos(ns, n.name, k) {
        choose|k: int| is_name_pos(ns, n.name, k)
    } else {
        ns.len() as int
    };
    assert(0 <= k <= ns.len());
    let r = insert_by_name(ns, n);
    assert(r == ns.insert(k, n));
    assert forall|i: int| 0 <= i < r.len() implies (#[trigger] r[i]).oldf.subset_of(c) && r[i].next.subset_of(c) by {
        if i < k {
            assert(r[i] == ns[i]);
        } else if i > k {
            assert(r[i] == ns[i - 1]);
        }
    }
    assert(tags(r) =~= tags(ns).insert(tag(n))) by {
        assert forall|t: Set<(bool, NnfV)>| tags(r).contains(t) implies tags(ns).insert(tag(n)).contains(t) by {
            let i = choose|i: int| 0 <= i < r.len() && #[trigger] tag(r[i]) == t;
            if i < k {
                assert(tag(ns[i]) == t);
            } else if i > k {
                assert(tag(ns[i - 1]) == t);
            }
        }
        assert forall|t: Set<(bool, NnfV)>| tags(ns).insert(tag(n)).contains(t) implies tags(r).contains(t) by {
            if t == tag(n) {
                assert(tag(r[k]) == t);
            } else {
                let i = choose|i: int| 0 <= i < ns.len() && #[trigger] tag(ns[i]) == t;
                if i < k {
                    assert(tag(r[i]) == t);
                } else {
                    assert(tag(r[i + 1]) == t);
                }
            }
        }
    }
}

proof fn lemma_update_tags(c: Set<NnfV>, ns: Seq<NodeV>, i: int, m: NodeV)
    requires
        nodes_in(c, ns),
        0 <= i < ns.len(),
        m.oldf == ns[i].oldf,
        m.next == ns[i].next,
    ensures
        nodes_in(c, ns.update(i, m)),
        tags(ns.update(i, m)) == tags(ns),
{
    let r = ns.update(i, m);
    assert(tag(m) =~= tag(ns[i]));
    assert forall|j: int| 0 <= j < r.len() implies (#[trigger] r[j]).oldf.subset_of(c) && r[j].next.subset_of(c) by {
        assert(ns[j].oldf.subset_of(c));
    }
    assert(tags(r) =~= tags(ns)) by {
        assert forall|t: Set<(bool, NnfV)>| tags(r).contains(t) implies tags(ns).contains(t) by {
            let j = choose|j: int| 0 <= j < r.len() && #[trigger] tag(r[j]) == t;
            assert(tag(ns[j]) == t);
        }
        assert forall|t: Set<(bool, NnfV)>| tags(ns).contains(t) implies tags(r).contains(t) by {
            let j = choose|j: int| 0 <= j < ns.len() && #[trigger] tag(ns[j]) == t;
            assert(tag(r[j]) == t);
        }
    }
}

/// Where the formulas of the node and the node set lie in a finite set
/// closed under direct subformulas, the expansion ends with some fuel, and
/// what it yields keeps to that set and leaves no more room.
pub proof fn lemma_expand_halts(c: Set<NnfV>, last: nat, node: NodeV, ns: Seq<NodeV>) -> (k: nat)
    requires
        closure_wf(c),
        node_in(c, node),
        nodes_in(c, ns),
    ensures
        expand_spec(k, last, node, ns) is Some,
        nodes_in(c, expand_spec(k, last, node, ns).unwrap().0),
        room(c, expand_spec(k, last, node, ns).unwrap().0) <= room(c, ns),
    decreases room(c, ns), wsum(node.newf),
{
    lemma_tags_bound(c, ns);
    lemma_set_subset_finite(c, node.newf);
    if node.newf.is_empty() {
        let i = find_match(ns, node.oldf, node.next);
        if 0 <= i {
            assert(is_first_match(ns, node.oldf, node.next, i));
            let m = NodeV { incoming: ns[i].incoming.union(node.incoming), ..ns[i] };
            lemma_update_tags(c, ns, i, m);
            1
        } else {
            let new_node = NodeV {
                name: (last + 1) as u32,
                incoming: set![node.name],
                newf: node.next,
                next: Set::empty(),
                oldf: Set::empty(),
            };
            let ns2 = insert_by_name(ns, node);
            lemma_insert_tags(c, ns, node);
            assert(!tags(ns).contains(tag(node))) by {
                if tags(ns).contains(tag(node)) {
                    let j = choose|j: int| 0 <= j < ns.len() && #[trigger] tag(ns[j]) == tag(node);
                    lemma_tag_same(ns[j], node);
                    lemma_first_match(ns, node.oldf, node.next, j);
                }
            }
            lemma_tags_bound(c, ns2);
            assert(tags(ns2).len() == tags(ns).len() + 1);
            let k1 = lemma_expand_halts(c, last + 1, new_node, ns2);
            k1 + 1
        }
    } else {
        lemma_least_exists(node.newf);
        let n = least(node.newf);
        let rest = node.newf.remove(n);
        assert(c.contains(n));
        assert(parts_in(n, c));
        lemma_wsum_remove(node.newf, n);
        match n {
            NnfV::Lit { .. } | NnfV::Bool(_) => {
                if contradicts(n, node.oldf) {
                    1
                } else {
                    let n1 = NodeV { newf: rest, oldf: node.oldf.insert(n), ..node };
                    let k1 = lemma_expand_halts(c, last, n1, ns);
                    k1 + 1
                }
            },
            NnfV::U(a, b) | NnfV::V(a, b) | NnfV::Or(a, b) => {
                let n1 = NodeV {
                    name: (last + 2 - 1) as u32,
                    incoming: node.incoming,
                    next: node.next.union(next1_of(n)),
                    oldf: node.oldf.insert(n),
                    newf: rest.union(new1_of(n).difference(node.oldf)),
                };
                let n2 = NodeV {
                    name: (last + 2) as u32,
                    incoming: node.incoming,
                    next: node.next,
                    oldf: node.oldf.insert(n),
                    newf: rest.union(new2_of(n).difference(node.oldf)),
                };
                // the size of what is left to process shrinks on both sides
                lemma_wsum_single(*a);
                lemma_wsum_single(*b);
                lemma_wsum_pair(*a, *b);
                lemma_wsum_subset(new1_of(n).difference(node.oldf), new1_of(n));
                lemma_wsum_subset(new2_of(n).difference(node.oldf), new2_of(n));
                lemma_wsum_union(rest, new1_of(n).difference(node.oldf));
                lemma_wsum_union(rest, new2_of(n).difference(node.oldf));
                assert(wsum(new1_of(n)) < nnf_size(n));
                assert(wsum(new2_of(n)) < nnf_size(n));
                let k1 = lemma_expand_halts(c, last + 2, n1, ns);
                let (t, l) = expand_spec(k1, last + 2, n1, ns).unwrap();
                let k2 = lemma_expand_halts(c, l, n2, t);
                let k = if k1 < k2 {
                    k2
                } else {
                    k1
                };
                lemma_expand_fuel_mono(k1, k, last + 2, n1, ns);
                lemma_expand_fuel_mono(k2, k, l, n2, t);
                k + 1
            },
            NnfV::And(a, b) => {
                let n1 = NodeV {
                    oldf: node.oldf.insert(*a).insert(*b),
                    newf: rest.union(set![*a, *b].difference(node.oldf)),
                    ..node
                };
                lemma_wsum_pair(*a, *b);
                lemma_wsum_subset(set![*a, *b].difference(node.oldf), set![*a, *b]);
                lemma_wsum_union(rest, set![*a, *b].difference(node.oldf));
                let k1 = lemma_expand_halts(c, last, n1, ns);
                k1 + 1
            },
            NnfV::X(a) => {
                let n1 = NodeV { next: node.next.insert(*a), oldf: node.oldf.insert(n), newf: rest, ..node };
                let k1 = lemma_expand_halts(c, last, n1, ns);
                k1 + 1
            },
        }
    }
}

/// The tableau construction terminates on every formula.
pub proof fn lemma_tableau_terminates(f: NnfV)
    ensures
        expand_terminates(1, initial_node(f), Seq::empty()),
{
    let c = subformulas(f);
    lemma_subformulas_closure(f);
    let node = initial_node(f);
    assert(node_in(c, node));
    let k = lemma_expand_halts(c, 1, node, Seq::empty());
    assert(expand_spec(k, 1, node, Seq::empty()) is Some);
}

/// The pairs that index the accepting sets are exactly the operands of the
/// until subformulas of the formula.
pub proof fn lemma_until_pairs_subformulas(f: NnfV)
    ensures
        forall|a: NnfV, b: NnfV|
            #[trigger] until_pairs(f).contains((a, b)) <==> subformulas(f).contains(
                NnfV::U(Box::new(a), Box::new(b)),
            ),
    decreases f,
{
    match f {
        NnfV::Lit { .. } => {
            assert forall|a: NnfV, b: NnfV|
                #[trigger] until_pairs(f).contains((a, b)) <==> subformulas(f).contains(
                    NnfV::U(Box::new(a), Box::new(b)),
                ) by {
                assert(subformulas(f) == set![f]);
                assert(until_pairs(f) == Set::<(NnfV, NnfV)>::empty());
            }
        },
        NnfV::Bool(_) => {
            assert forall|a: NnfV, b: NnfV|
                #[trigger] until_pairs(f).contains((a, b)) <==> subformulas(f).contains(
                    NnfV::U(Box::new(a), Box::new(b)),
                ) by {
                assert(subformulas(f) == set![f]);
                assert(until_pairs(f) == Set::<(NnfV, NnfV)>::empty());
            }
        },
        NnfV::X(x) => {
            lemma_until_pairs_subformulas(*x);
            assert forall|a: NnfV, b: NnfV|
                #[trigger] until_pairs(f).contains((a, b)) <==> subformulas(f).contains(
                    NnfV::U(Box::new(a), Box::new(b)),
                ) by {
                assert(subformulas(f) == set![f].union(subformulas(*x)));
                assert(until_pairs(f) == until_pairs(*x));
            }
        },
        NnfV::U(x, y) => {
            lemma_until_pairs_subformulas(*x);
            lemma_until_pairs_subformulas(*y);
            assert forall|a: NnfV, b: NnfV|
                #[trigger] until_pairs(f).contains((a, b)) <==> subformulas(f).contains(
                    NnfV::U(Box::new(a), Box::new(b)),
                ) by {
                assert(subformulas(f) == set![f].union(subformulas(*x)).union(subformulas(*y)));
                assert(until_pairs(f) == until_pairs(*x).union(until_pairs(*y)).insert((*x, *y)));
                if NnfV::U(Box::new(a), Box::new(b)) == f {
                    assert(a == *x && b == *y);
                }
            }
        },
        NnfV::V(x, y) => {
            lemma_until_pairs_subformulas(*x);
            lemma_until_pairs_subformulas(*y);
            assert forall|a: NnfV, b: NnfV|
                #[trigger] until_pairs(f).contains((a, b)) <==> subformulas(f).contains(
                    NnfV::U(Box::new(a), Box::new(b)),
                ) by {
                assert(subformulas(f) == set![f].union(subformulas(*x)).union(subformulas(*y)));
                assert(until_pairs(f) == until_pairs(*x).union(until_pairs(*y)));
            }
        },
        NnfV::Or(x, y) => {
            lemma_until_pairs_subformulas(*x);
            lemma_until_pairs_subformulas(*y);
            assert forall|a: NnfV, b: NnfV|
                #[trigger] until_pairs(f).contains((a, b)) <==> subformulas(f).contains(
                    NnfV::U(Box::new(a), Box::new(b)),
                ) by {
                assert(subformulas(f) == set![f].union(subformulas(*x)).union(subformulas(*y)));
                assert(until_pairs(f) == until_pairs(*x).union(until_pairs(*y)));
            }
        },
        NnfV::And(x, y) => {
            lemma_until_pairs_subformulas(*x);
            lemma_until_pairs_subformulas(*y);
            assert forall|a: NnfV, b: NnfV|
                #[trigger] until_pairs(f).contains((a, b)) <==> subformulas(f).contains(
                    NnfV::U(Box::new(a), Box::new(b)),
                ) by {
                assert(subformulas(f) == set![f].union(subformulas(*x)).union(subformulas(*y)));
                assert(until_pairs(f) == until_pairs(*x).union(until_pairs(*y)));
            }
        },
    }
}

} // verus!
