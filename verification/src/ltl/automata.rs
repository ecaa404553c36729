//! The tableau construction of "Simple On-the-Fly Automatic Verification of
//! Linear Temporal Logic" (Gerth, Peled, Vardi, Wolper): a formula in negation
//! normal form is expanded into a graph of nodes, each listing the formulas
//! that hold now (`oldf`), that must hold next (`next`) and that are still to
//! be processed (`newf`).
use vstd::prelude::*;

use super::expression::{NnfLtl, NnfV, Literal};
use crate::text::{decimal, decimal_text};
use vstd::string::*;
use super::termination::lemma_tableau_terminates;
use super::formula_set::{
    fset, fset_wf, views, strictly_sorted, nnf_order, lemma_nnf_order_basics,
    lemma_sorted_canonical, fset_contains, fset_insert, fset_clone, fset_union, fset_minus,
    fset_equal,
};

verus! {

/// The name of a node of the tableau; name 0 is the initial pseudo-node.
#[derive(Clone, Copy)]
pub struct AutomataId(pub u32);

impl View for AutomataId {
    type V = AutomataId;

    open spec fn view(&self) -> AutomataId {
        *self
    }
}

impl AutomataId {
    /// The initial pseudo-node.
    pub fn initial() -> (r: AutomataId)
        ensures
            r.0 == 0,
    {
        AutomataId(0)
    }

    /// Whether this is the initial pseudo-node.
    pub fn is_initial(&self) -> (r: bool)
        ensures
            r == (self.0 == 0),
    {
        self.0 == 0
    }
}

/// A node of the tableau.
pub struct Node {
    pub name: AutomataId,
    pub incoming: Vec<AutomataId>,
    pub next: Vec<NnfLtl>,
    pub oldf: Vec<NnfLtl>,
    pub newf: Vec<NnfLtl>,
}

/// The abstract value of a node: its name and four sets.
#[verifier::ext_equal]
pub struct NodeV {
    pub name: u32,
    pub incoming: Set<u32>,
    pub next: Set<NnfV>,
    pub oldf: Set<NnfV>,
    pub newf: Set<NnfV>,
}

pub open spec fn ids_view(v: Seq<AutomataId>) -> Seq<u32> {
    v.map_values(|a: AutomataId| a.0)
}

pub open spec fn ids_sorted(s: Seq<u32>) -> bool {
    forall|i: int, j: int| 0 <= i < j < s.len() ==> s[i] < s[j]
}

impl View for Node {
    type V = NodeV;

    open spec fn view(&self) -> NodeV {
        NodeV {
            name: self.name.0,
            incoming: ids_view(self.incoming@).to_set(),
            next: fset(self.next@),
            oldf: fset(self.oldf@),
            newf: fset(self.newf@),
        }
    }
}

/// Every set of the node is held as a strictly increasing vector.
pub open spec fn node_wf(n: Node) -> bool {
    &&& ids_sorted(ids_view(n.incoming@))
    &&& fset_wf(n.next@)
    &&& fset_wf(n.oldf@)
    &&& fset_wf(n.newf@)
}

pub open spec fn nodes_view(ns: Seq<Node>) -> Seq<NodeV> {
    ns.map_values(|n: Node| n@)
}

/// Names strictly increase along the sequence.
pub open spec fn names_sorted(s: Seq<NodeV>) -> bool {
    forall|i: int, j: int| 0 <= i < j < s.len() ==> s[i].name < s[j].name
}

/// A node set held as a vector: every node well formed, sorted by name.
pub open spec fn nodes_wf(ns: Seq<Node>) -> bool {
    &&& forall|i: int| 0 <= i < ns.len() ==> node_wf(#[trigger] ns[i])
    &&& names_sorted(nodes_view(ns))
}

/// `x` is the least element of `s`.
pub open spec fn is_least(s: Set<NnfV>, x: NnfV) -> bool {
    &&& s.contains(x)
    &&& forall|y: NnfV| s.contains(y) ==> y == x || nnf_order(x, y) < 0
}

/// The least formula of a set.
pub open spec fn least(s: Set<NnfV>) -> NnfV {
    choose|x: NnfV| is_least(s, x)
}

/// The formula contradicts what the node already holds: `⊥`, or a literal
/// whose negation is held.
pub open spec fn contradicts(n: NnfV, oldf: Set<NnfV>) -> bool {
    match n {
        NnfV::Bool(b) => !b,
        NnfV::Lit { negated, name } => oldf.contains(NnfV::Lit { negated: !negated, name }),
        _ => false,
    }
}

/// `New1` of the paper's table.
pub open spec fn new1_of(n: NnfV) -> Set<NnfV> {
    match n {
        NnfV::U(p, _) => set![*p],
        NnfV::V(_, q) => set![*q],
        NnfV::Or(p, _) => set![*p],
        _ => Set::empty(),
    }
}

/// `Next1` of the paper's table.
pub open spec fn next1_of(n: NnfV) -> Set<NnfV> {
    match n {
        NnfV::U(_, _) => set![n],
        NnfV::V(_, _) => set![n],
        _ => Set::empty(),
    }
}

/// `New2` of the paper's table.
pub open spec fn new2_of(n: NnfV) -> Set<NnfV> {
    match n {
        NnfV::U(_, q) => set![*q],
        NnfV::V(p, q) => set![*p, *q],
        NnfV::Or(_, q) => set![*q],
        _ => Set::empty(),
    }
}

/// `i` is the first index of a node with the given `oldf` and `next`.
pub open spec fn is_first_match(ns: Seq<NodeV>, oldf: Set<NnfV>, next: Set<NnfV>, i: int) -> bool {
    &&& 0 <= i < ns.len()
    &&& ns[i].oldf == oldf
    &&& ns[i].next == next
    &&& forall|j: int| 0 <= j < i ==> !(ns[j].oldf == oldf && ns[j].next == next)
}

/// Index of the first node with the given `oldf` and `next`, or `-1`.
pub open spec fn find_match(ns: Seq<NodeV>, oldf: Set<NnfV>, next: Set<NnfV>) -> int {
    if exists|i: int| is_first_match(ns, oldf, next, i) {
        choose|i: int| is_first_match(ns, oldf, next, i)
    } else {
        -1
    }
}

/// `k` is where a node of the given name goes in a sequence sorted by name.
pub open spec fn is_name_pos(ns: Seq<NodeV>, name: u32, k: int) -> bool {
    &&& 0 <= k <= ns.len()
    &&& forall|j: int| 0 <= j < k ==> ns[j].name < name
    &&& forall|j: int| k <= j < ns.len() ==> ns[j].name >= name
}

/// Inserts a node into a sequence sorted by name.
pub open spec fn insert_by_name(ns: Seq<NodeV>, n: NodeV) -> Seq<NodeV> {
    let k = if exists|k: int| is_name_pos(ns, n.name, k) {
        choose|k: int| is_name_pos(ns, n.name, k)
    } else {
        ns.len() as int
    };
    ns.insert(k, n)
}

/// The `expand` procedure of the paper, run with at most `fuel` nested
/// steps: the resulting node set and the last name handed out, or `None`
/// when the fuel does not suffice. `last` is the last name handed out so far.
pub open spec fn expand_spec(fuel: nat, last: nat, node: NodeV, ns: Seq<NodeV>) -> Option<
    (Seq<NodeV>, nat),
>
    decreases fuel,
{
    if fuel == 0 {
        None
    } else if node.newf.is_empty() {
        let i = find_match(ns, node.oldf, node.next);
        if 0 <= i {
            Some((ns.update(i, NodeV { incoming: ns[i].incoming.union(node.incoming), ..ns[i] }), last))
        } else {
            let new_node = NodeV {
                name: (last + 1) as u32,
                incoming: set![node.name],
                newf: node.next,
                next: Set::empty(),
                oldf: Set::empty(),
            };
            expand_spec((fuel - 1) as nat, last + 1, new_node, insert_by_name(ns, node))
        }
    } else {
        let n = least(node.newf);
        let rest = node.newf.remove(n);
        match n {
            NnfV::Lit { .. } | NnfV::Bool(_) => if contradicts(n, node.oldf) {
                Some((ns, last))
            } else {
                expand_spec(
                    (fuel - 1) as nat,
                    last,
                    NodeV { newf: rest, oldf: node.oldf.insert(n), ..node },
                    ns,
                )
            },
            NnfV::U(_, _) | NnfV::V(_, _) | NnfV::Or(_, _) => {
                let n1 = NodeV {
                    name: (last + 1) as u32,
                    incoming: node.incoming,
                    next: node.next.union(next1_of(n)),
                    oldf: node.oldf.insert(n),
                    newf: rest.union(new1_of(n).difference(node.oldf)),
                };
                let n2 = NodeV {
                    name: (last + 2) as u32,
                    incoming: node.incoming,
                    next: node.next,
                    oldf: node.oldf.insert(n),
                    newf: rest.union(new2_of(n).difference(node.oldf)),
                };
                match expand_spec((fuel - 1) as nat, last + 2, n1, ns) {
                    Some((t, l)) => expand_spec((fuel - 1) as nat, l, n2, t),
                    None => None,
                }
            },
            NnfV::And(p, q) => expand_spec(
                (fuel - 1) as nat,
                last,
                NodeV {
                    oldf: node.oldf.insert(*p).insert(*q),
                    newf: rest.union(set![*p, *q].difference(node.oldf)),
                    ..node
                },
                ns,
            ),
            NnfV::X(p) => expand_spec(
                (fuel - 1) as nat,
                last,
                NodeV { next: node.next.insert(*p), oldf: node.oldf.insert(n), newf: rest, ..node },
                ns,
            ),
        }
    }
}


/// The expansion terminates within some fuel.
pub open spec fn expand_terminates(last: nat, node: NodeV, ns: Seq<NodeV>) -> bool {
    exists|k: nat| #[trigger] expand_spec(k, last, node, ns) is Some
}

/// `k` is the least fuel with which the expansion terminates.
pub open spec fn is_min_fuel(k: nat, last: nat, node: NodeV, ns: Seq<NodeV>) -> bool {
    &&& expand_spec(k, last, node, ns) is Some
    &&& forall|j: nat| j < k ==> #[trigger] expand_spec(j, last, node, ns) is None
}

/// The least fuel with which the expansion terminates.
pub open spec fn min_fuel(last: nat, node: NodeV, ns: Seq<NodeV>) -> nat {
    choose|k: nat| is_min_fuel(k, last, node, ns)
}

/// The node set and the last name that the expansion yields.
pub open spec fn expand_result(last: nat, node: NodeV, ns: Seq<NodeV>) -> (Seq<NodeV>, nat) {
    expand_spec(min_fuel(last, node, ns), last, node, ns).unwrap()
}

proof fn lemma_min_fuel_exists(k: nat, last: nat, node: NodeV, ns: Seq<NodeV>)
    requires
        expand_spec(k, last, node, ns) is Some,
    ensures
        exists|m: nat| is_min_fuel(m, last, node, ns),
    decreases k,
{
    if exists|j: nat| j < k && #[trigger] expand_spec(j, last, node, ns) is Some {
        let j = choose|j: nat| j < k && #[trigger] expand_spec(j, last, node, ns) is Some;
        lemma_min_fuel_exists(j, last, node, ns);
    } else {
        assert(is_min_fuel(k, last, node, ns));
    }
}

/// More fuel gives the same result.
pub proof fn lemma_expand_fuel_mono(k1: nat, k2: nat, last: nat, node: NodeV, ns: Seq<NodeV>)
    requires
        k1 <= k2,
        expand_spec(k1, last, node, ns) is Some,
    ensures
        expand_spec(k2, last, node, ns) == expand_spec(k1, last, node, ns),
    decreases k1,
{
    if node.newf.is_empty() {
        let i = find_match(ns, node.oldf, node.next);
        if i < 0 {
            let new_node = NodeV {
                name: (last + 1) as u32,
                incoming: set![node.name],
                newf: node.next,
                next: Set::empty(),
                oldf: Set::empty(),
            };
            lemma_expand_fuel_mono(
                (k1 - 1) as nat,
                (k2 - 1) as nat,
                last + 1,
                new_node,
                insert_by_name(ns, node),
            );
        }
    } else {
        let n = least(node.newf);
        let rest = node.newf.remove(n);
        match n {
            NnfV::Lit { .. } | NnfV::Bool(_) => {
                if !contradicts(n, node.oldf) {
                    lemma_expand_fuel_mono(
                        (k1 - 1) as nat,
                        (k2 - 1) as nat,
                        last,
                        NodeV { newf: rest, oldf: node.oldf.insert(n), ..node },
                        ns,
                    );
                }
            },
            NnfV::U(_, _) | NnfV::V(_, _) | NnfV::Or(_, _) => {
                let n1 = NodeV {
                    name: (last + 1) as u32,
                    incoming: node.incoming,
                    next: node.next.union(next1_of(n)),
                    oldf: node.oldf.insert(n),
                    newf: rest.union(new1_of(n).difference(node.oldf)),
                };
                let n2 = NodeV {
                    name: (last + 2) as u32,
                    incoming: node.incoming,
                    next: node.next,
                    oldf: node.oldf.insert(n),
                    newf: rest.union(new2_of(n).difference(node.oldf)),
                };
                lemma_expand_fuel_mono((k1 - 1) as nat, (k2 - 1) as nat, last + 2, n1, ns);
                let (t, l) = expand_spec((k1 - 1) as nat, last + 2, n1, ns).unwrap();
                lemma_expand_fuel_mono((k1 - 1) as nat, (k2 - 1) as nat, l, n2, t);
            },
            NnfV::And(p, q) => {
                lemma_expand_fuel_mono(
                    (k1 - 1) as nat,
                    (k2 - 1) as nat,
                    last,
                    NodeV {
                        oldf: node.oldf.insert(*p).insert(*q),
                        newf: rest.union(set![*p, *q].difference(node.oldf)),
                        ..node
                    },
                    ns,
                );
            },
            NnfV::X(p) => {
                lemma_expand_fuel_mono(
                    (k1 - 1) as nat,
                    (k2 - 1) as nat,
                    last,
                    NodeV { next: node.next.insert(*p), oldf: node.oldf.insert(n), newf: rest, ..node },
                    ns,
                );
            },
        }
    }
}

/// Names are only ever handed out, never given back.
pub proof fn lemma_expand_last_grows(k: nat, last: nat, node: NodeV, ns: Seq<NodeV>)
    requires
        expand_spec(k, last, node, ns) is Some,
    ensures
        expand_spec(k, last, node, ns).unwrap().1 >= last,
    decreases k,
{
    if node.newf.is_empty() {
        let i = find_match(ns, node.oldf, node.next);
        if i < 0 {
            let new_node = NodeV {
                name: (last + 1) as u32,
                incoming: set![node.name],
                newf: node.next,
                next: Set::empty(),
                oldf: Set::empty(),
            };
            lemma_expand_last_grows((k - 1) as nat, last + 1, new_node, insert_by_name(ns, node));
        }
    } else {
        let n = least(node.newf);
        let rest = node.newf.remove(n);
        match n {
            NnfV::Lit { .. } | NnfV::Bool(_) => {
                if !contradicts(n, node.oldf) {
                    lemma_expand_last_grows(
                        (k - 1) as nat,
                        last,
                        NodeV { newf: rest, oldf: node.oldf.insert(n), ..node },
                        ns,
                    );
                }
            },
            NnfV::U(_, _) | NnfV::V(_, _) | NnfV::Or(_, _) => {
                let n1 = NodeV {
                    name: (last + 1) as u32,
                    incoming: node.incoming,
                    next: node.next.union(next1_of(n)),
                    oldf: node.oldf.insert(n),
                    newf: rest.union(new1_of(n).difference(node.oldf)),
                };
                let n2 = NodeV {
                    name: (last + 2) as u32,
                    incoming: node.incoming,
                    next: node.next,
                    oldf: node.oldf.insert(n),
                    newf: rest.union(new2_of(n).difference(node.oldf)),
                };
                lemma_expand_last_grows((k - 1) as nat, last + 2, n1, ns);
                let (t, l) = expand_spec((k - 1) as nat, last + 2, n1, ns).unwrap();
                lemma_expand_last_grows((k - 1) as nat, l, n2, t);
            },
            NnfV::And(p, q) => {
                lemma_expand_last_grows(
                    (k - 1) as nat,
                    last,
                    NodeV {
                        oldf: node.oldf.insert(*p).insert(*q),
                        newf: rest.union(set![*p, *q].difference(node.oldf)),
                        ..node
                    },
                    ns,
                );
            },
            NnfV::X(p) => {
                lemma_expand_last_grows(
                    (k - 1) as nat,
                    last,
                    NodeV { next: node.next.insert(*p), oldf: node.oldf.insert(n), newf: rest, ..node },
                    ns,
                );
            },
        }
    }
}

/// Once the expansion terminates, the least fuel gives its result, and so
/// does every larger fuel.
pub proof fn lemma_min_fuel(k: nat, last: nat, node: NodeV, ns: Seq<NodeV>)
    requires
        expand_spec(k, last, node, ns) is Some,
    ensures
        is_min_fuel(min_fuel(last, node, ns), last, node, ns),
        min_fuel(last, node, ns) <= k,
        expand_spec(k, last, node, ns) == Some(expand_result(last, node, ns)),
{
    lemma_min_fuel_exists(k, last, node, ns);
    let m = min_fuel(last, node, ns);
    assert(is_min_fuel(m, last, node, ns));
    if m > k {
        assert(expand_spec(k, last, node, ns) is None);
    }
    lemma_expand_fuel_mono(m, k, last, node, ns);
}


/// Copies a set of names.
fn ids_copy(v: &Vec<AutomataId>) -> (r: Vec<AutomataId>)
    ensures
        ids_view(r@) == ids_view(v@),
{
    let mut r: Vec<AutomataId> = Vec::new();
    let mut i: usize = 0;
    while i < v.len()
        invariant
            i <= v@.len(),
            ids_view(r@) == ids_view(v@).take(i as int),
        decreases v@.len() - i,
    {
        let ghost before = r@;
        let x = AutomataId(v[i].0);
        r.push(x);
        proof {
            before.lemma_push_map_commute(|a: AutomataId| a.0, x);
            ids_view(v@).lemma_take_succ_push(i as int);
            assert(ids_view(r@) =~= ids_view(v@).take(i + 1));
        }
        i = i + 1;
    }
    assert(ids_view(v@).take(i as int) =~= ids_view(v@));
    r
}

/// Adds a name to a strictly increasing vector of names.
fn ids_insert(v: &mut Vec<AutomataId>, x: AutomataId)
    requires
        ids_sorted(ids_view(old(v)@)),
    ensures
        ids_sorted(ids_view(final(v)@)),
        ids_view(final(v)@).to_set() == ids_view(old(v)@).to_set().insert(x.0),
{
    let ghost s = ids_view(v@);
    let mut i: usize = 0;
    while i < v.len() && v[i].0 < x.0
        invariant
            i <= v@.len(),
            v@ == old(v)@,
            s == ids_view(v@),
            forall|k: int| 0 <= k < i ==> s[k] < x.0,
        decreases v@.len() - i,
    {
        i = i + 1;
    }
    if i < v.len() && v[i].0 == x.0 {
        assert(s[i as int] == x.0);
        assert(s.to_set().insert(x.0) =~= s.to_set());
        return;
    }
    v.insert(i, x);
    proof {
        let t = ids_view(v@);
        assert(t =~= s.insert(i as int, x.0));
        assert forall|a: int, b: int| 0 <= a < b < t.len() implies t[a] < t[b] by {
            if a < i && b == i {
            } else if a < i && b > i {
                assert(s[a] < x.0);
            } else if a == i && b > i {
                if b - 1 > i {
                    assert(s[i as int] < s[b - 1]);
                }
            } else if a > i {
                assert(s[a - 1] < s[b - 1]);
            }
        }
        assert(t.to_set() =~= s.to_set().insert(x.0)) by {
            assert forall|y: u32| t.to_set().contains(y) implies s.to_set().insert(x.0).contains(y) by {
                let k = choose|k: int| 0 <= k < t.len() && t[k] == y;
                if k < i {
                    assert(s[k] == y);
                } else if k > i {
                    assert(s[k - 1] == y);
                }
            }
            assert forall|y: u32| s.to_set().insert(x.0).contains(y) implies t.to_set().contains(y) by {
                if y == x.0 {
                    assert(t[i as int] == y);
                } else {
                    let k = choose|k: int| 0 <= k < s.len() && s[k] == y;
                    if k < i {
                        assert(t[k] == y);
                    } else {
                        assert(t[k + 1] == y);
                    }
                }
            }
        }
    }
}

/// The union of two sets of names.
fn ids_union(a: &Vec<AutomataId>, b: &Vec<AutomataId>) -> (r: Vec<AutomataId>)
    requires
        ids_sorted(ids_view(a@)),
    ensures
        ids_sorted(ids_view(r@)),
        ids_view(r@).to_set() == ids_view(a@).to_set().union(ids_view(b@).to_set()),
{
    let mut r = ids_copy(a);
    let mut i: usize = 0;
    assert(ids_view(b@).take(0).to_set() =~= Set::<u32>::empty());
    assert(ids_view(r@).to_set() =~= ids_view(a@).to_set().union(ids_view(b@).take(0).to_set()));
    while i < b.len()
        invariant
            i <= b@.len(),
            ids_sorted(ids_view(r@)),
            ids_view(r@).to_set() == ids_view(a@).to_set().union(
                ids_view(b@).take(i as int).to_set(),
            ),
        decreases b@.len() - i,
    {
        ids_insert(&mut r, b[i]);
        proof {
            ids_view(b@).lemma_take_succ_push(i as int);
            ids_view(b@).take(i as int).lemma_push_to_set_commute(b@[i as int].0);
            assert(ids_view(r@).to_set() =~= ids_view(a@).to_set().union(
                ids_view(b@).take(i + 1).to_set(),
            ));
        }
        i = i + 1;
    }
    assert(ids_view(b@).take(i as int) =~= ids_view(b@));
    r
}

/// The first formula of a strictly sorted vector is the least of its set,
/// and the rest holds the others.
proof fn lemma_pop_least(v: Seq<NnfLtl>)
    requires
        fset_wf(v),
        v.len() > 0,
    ensures
        is_least(fset(v), v[0]@),
        least(fset(v)) == v[0]@,
        fset(v.drop_first()) == fset(v).remove(v[0]@),
        fset_wf(v.drop_first()),
{
    let s = views(v);
    assert(s[0] == v[0]@);
    assert(is_least(fset(v), v[0]@)) by {
        assert(s.to_set().contains(s[0]));
        assert forall|y: NnfV| s.to_set().contains(y) implies y == s[0] || nnf_order(s[0], y) < 0 by {
            let k = choose|k: int| 0 <= k < s.len() && s[k] == y;
            if k > 0 {
                assert(nnf_order(s[0], s[k]) < 0);
            }
        }
    }
    let x = least(fset(v));
    assert(is_least(fset(v), x));
    lemma_nnf_order_basics(x, v[0]@);
    assert(x == v[0]@);
    assert(views(v.drop_first()) =~= s.drop_first());
    assert(s.drop_first().to_set() =~= s.to_set().remove(s[0])) by {
        assert forall|y: NnfV| s.drop_first().to_set().contains(y) implies s.to_set().remove(s[0]).contains(y) by {
            let k = choose|k: int| 0 <= k < s.drop_first().len() && s.drop_first()[k] == y;
            assert(s[k + 1] == y);
            assert(nnf_order(s[0], s[k + 1]) < 0);
            lemma_nnf_order_basics(s[0], y);
        }
        assert forall|y: NnfV| s.to_set().remove(s[0]).contains(y) implies s.drop_first().to_set().contains(y) by {
            let k = choose|k: int| 0 <= k < s.len() && s[k] == y;
            assert(k != 0);
            assert(s.drop_first()[k - 1] == y);
        }
    }
    assert(strictly_sorted(s.drop_first())) by {
        assert forall|i: int, j: int| 0 <= i < j < s.drop_first().len() implies nnf_order(
            s.drop_first()[i],
            s.drop_first()[j],
        ) < 0 by {
            assert(nnf_order(s[i + 1], s[j + 1]) < 0);
        }
    }
}

/// The three sets of the paper's table for an until, release or or formula.
fn new1_next1_new2(n: &NnfLtl) -> (r: (Vec<NnfLtl>, Vec<NnfLtl>, Vec<NnfLtl>))
    requires
        n@ is U || n@ is V || n@ is Or,
    ensures
        fset_wf(r.0@),
        fset_wf(r.1@),
        fset_wf(r.2@),
        fset(r.0@) == new1_of(n@),
        fset(r.1@) == next1_of(n@),
        fset(r.2@) == new2_of(n@),
{
    let mut new1: Vec<NnfLtl> = Vec::new();
    let mut next1: Vec<NnfLtl> = Vec::new();
    let mut new2: Vec<NnfLtl> = Vec::new();
    proof {
        assert(views(new1@) =~= Seq::<NnfV>::empty());
        assert(views(next1@) =~= Seq::<NnfV>::empty());
        assert(views(new2@) =~= Seq::<NnfV>::empty());
        assert(fset(new1@) =~= Set::<NnfV>::empty());
        assert(fset(next1@) =~= Set::<NnfV>::empty());
        assert(fset(new2@) =~= Set::<NnfV>::empty());
    }
    match n {
        NnfLtl::U(p, q) => {
            fset_insert(&mut new1, (**p).clone());
            fset_insert(&mut next1, n.clone());
            fset_insert(&mut new2, (**q).clone());
        },
        NnfLtl::V(p, q) => {
            fset_insert(&mut new1, (**q).clone());
            fset_insert(&mut next1, n.clone());
            fset_insert(&mut new2, (**p).clone());
            fset_insert(&mut new2, (**q).clone());
        },
        NnfLtl::Or(p, q) => {
            fset_insert(&mut new1, (**p).clone());
            fset_insert(&mut new2, (**q).clone());
        },
        _ => {},
    }
    proof {
        assert(fset(new1@) =~= new1_of(n@));
        assert(fset(next1@) =~= next1_of(n@));
        assert(fset(new2@) =~= new2_of(n@));
    }
    (new1, next1, new2)
}

/// Whether the formula contradicts the formulas already held.
fn contradicts_exec(n: &NnfLtl, oldf: &Vec<NnfLtl>) -> (r: bool)
    ensures
        r == contradicts(n@, fset(oldf@)),
{
    match n {
        NnfLtl::Bool(b) => !*b,
        NnfLtl::Literal { negated, name } => {
            let other = NnfLtl::Literal { negated: !*negated, name: name.clone() };
            fset_contains(oldf, &other)
        },
        _ => false,
    }
}

/// Index of the first node holding the given `oldf` and `next`.
fn find_pair(ns: &Vec<Node>, oldf: &Vec<NnfLtl>, next: &Vec<NnfLtl>) -> (r: Option<usize>)
    requires
        nodes_wf(ns@),
        fset_wf(oldf@),
        fset_wf(next@),
    ensures
        match r {
            Some(i) => i as int == find_match(nodes_view(ns@), fset(oldf@), fset(next@)) && i < ns@.len(),
            None => find_match(nodes_view(ns@), fset(oldf@), fset(next@)) == -1,
        },
{
    let ghost s = nodes_view(ns@);
    let mut i: usize = 0;
    while i < ns.len()
        invariant
            i <= ns@.len(),
            nodes_wf(ns@),
            fset_wf(oldf@),
            fset_wf(next@),
            s == nodes_view(ns@),
            forall|j: int| 0 <= j < i ==> !(s[j].oldf == fset(oldf@) && s[j].next == fset(next@)),
        decreases ns@.len() - i,
    {
        let e1 = fset_equal(&ns[i].oldf, oldf);
        let e2 = fset_equal(&ns[i].next, next);
        proof {
            assert(node_wf(ns@[i as int]));
            assert(s[i as int] == ns@[i as int]@);
            if s[i as int].oldf == fset(oldf@) {
                lemma_sorted_canonical(views(ns@[i as int].oldf@), views(oldf@));
            }
            if s[i as int].next == fset(next@) {
                lemma_sorted_canonical(views(ns@[i as int].next@), views(next@));
            }
        }
        if e1 && e2 {
            proof {
                assert(is_first_match(s, fset(oldf@), fset(next@), i as int));
                let c = choose|c: int| is_first_match(s, fset(oldf@), fset(next@), c);
                assert(c == i) by {
                    if c < i {
                    } else if c > i {
                    }
                }
            }
            return Some(i);
        }
        i = i + 1;
    }
    proof {
        if exists|c: int| is_first_match(s, fset(oldf@), fset(next@), c) {
            let c = choose|c: int| is_first_match(s, fset(oldf@), fset(next@), c);
        }
    }
    None
}

/// Inserts a node whose name is not taken into a node set sorted by name.
fn insert_node(ns: &mut Vec<Node>, n: Node)
    requires
        nodes_wf(old(ns)@),
        node_wf(n),
        forall|j: int| 0 <= j < old(ns)@.len() ==> old(ns)@[j].name.0 != n.name.0,
    ensures
        nodes_wf(final(ns)@),
        nodes_view(final(ns)@) == insert_by_name(nodes_view(old(ns)@), n@),
        forall|j: int| 0 <= j < final(ns)@.len() ==> (#[trigger] final(ns)@[j].name.0 == n.name.0
            || exists|m: int| 0 <= m < old(ns)@.len() && old(ns)@[m].name.0 == final(ns)@[j].name.0),
{
    let ghost s = nodes_view(ns@);
    let mut k: usize = 0;
    while k < ns.len() && ns[k].name.0 < n.name.0
        invariant
            k <= ns@.len(),
            ns@ == old(ns)@,
            s == nodes_view(ns@),
            forall|j: int| 0 <= j < k ==> s[j].name < n.name.0,
        decreases ns@.len() - k,
    {
        k = k + 1;
    }
    proof {
        assert(is_name_pos(s, n.name.0, k as int)) by {
            assert forall|j: int| k <= j < s.len() implies s[j].name >= n.name.0 by {
                if j > k {
                    assert(s[k as int].name < s[j].name);
                }
            }
        }
        let c = choose|c: int| is_name_pos(s, n.name.0, c);
        assert(c == k) by {
            if c < k {
                assert(s[c].name >= n.name.0);
            } else if c > k {
                assert(s[k as int].name >= n.name.0);
                assert(s[k as int].name < n.name.0);
            }
        }
    }
    let ghost nv = n@;
    let ghost old_ns = ns@;
    ns.insert(k, n);
    proof {
        assert(nodes_view(ns@) =~= s.insert(k as int, nv));
        assert forall|j: int| 0 <= j < ns@.len() implies node_wf(#[trigger] ns@[j]) by {
            if j < k {
                assert(ns@[j] == old_ns[j]);
            } else if j > k {
                assert(ns@[j] == old_ns[j - 1]);
            }
        }
        assert forall|a: int, b: int| 0 <= a < b < ns@.len() implies nodes_view(ns@)[a].name
            < nodes_view(ns@)[b].name by {
            let t = nodes_view(ns@);
            if b == k {
            } else if a == k {
                assert(s[b - 1].name >= nv.name);
                assert(s[b - 1].name != nv.name) by {
                    assert(old_ns[b - 1].name.0 != nv.name);
                }
            } else if a < k && b > k {
                assert(t[b] == s[b - 1]);
                if b - 1 > a {
                    assert(s[a].name < s[b - 1].name);
                }
            } else if a > k {
                assert(s[a - 1].name < s[b - 1].name);
            } else {
                assert(s[a].name < s[b].name);
            }
        }
        assert forall|j: int| 0 <= j < ns@.len() implies (#[trigger] ns@[j].name.0 == nv.name
            || exists|m: int| 0 <= m < old_ns.len() && old_ns[m].name.0 == ns@[j].name.0) by {
            if j < k {
                assert(ns@[j] == old_ns[j]);
            } else if j > k {
                assert(ns@[j] == old_ns[j - 1]);
            }
        }
    }
}

/// Hands out fresh node names.
pub struct AutomataGraph {
    pub last_id: u32,
}

impl AutomataGraph {
    /// A graph that has handed out no name yet.
    pub fn new() -> (r: AutomataGraph)
        ensures
            r.last_id == 0,
    {
        AutomataGraph { last_id: 0 }
    }

    /// A fresh name: one above the last one handed out.
    pub fn new_name(&mut self) -> (r: AutomataId)
        requires
            old(self).last_id < u32::MAX,
        ensures
            final(self).last_id == old(self).last_id + 1,
            r.0 == final(self).last_id,
    {
        self.last_id = self.last_id + 1;
        AutomataId(self.last_id)
    }

    /// The initial pseudo-node.
    pub fn initial(&self) -> (r: AutomataId)
        ensures
            r.0 == 0,
    {
        AutomataId(0)
    }
}


/// What `expand` needs: well-formed vectors, names handed out so far at most
/// `last` and distinct, and an expansion whose names fit in a `u32`.
pub open spec fn expand_pre(last: nat, node: Node, ns: Seq<Node>) -> bool {
    &&& node_wf(node)
    &&& nodes_wf(ns)
    &&& node.name.0 <= last
    &&& forall|j: int| 0 <= j < ns.len() ==> #[trigger] ns[j].name.0 <= last && ns[j].name.0 != node.name.0
    &&& expand_terminates(last, node@, nodes_view(ns))
    &&& expand_result(last, node@, nodes_view(ns)).1 <= u32::MAX
}

impl AutomataGraph {
    /// The `expand` procedure of the paper: processes the formulas of
    /// `node.newf` one by one, splitting the node on until, release and or,
    /// and adds the finished nodes to `node_set`.
    fn expand(&mut self, node: Node, node_set: Vec<Node>) -> (r: Vec<Node>)
        requires
            expand_pre(old(self).last_id as nat, node, node_set@),
        ensures
            nodes_wf(r@),
            (nodes_view(r@), final(self).last_id as nat) == expand_result(
                old(self).last_id as nat,
                node@,
                nodes_view(node_set@),
            ),
            old(self).last_id <= final(self).last_id,
            forall|j: int| 0 <= j < r@.len() ==> (#[trigger] r@[j].name.0 == node.name.0 || (
            old(self).last_id < r@[j].name.0 <= final(self).last_id) || exists|m: int|
                0 <= m < node_set@.len() && node_set@[m].name.0 == r@[j].name.0),
        decreases min_fuel(old(self).last_id as nat, node@, nodes_view(node_set@)),
    {
        let ghost last = self.last_id as nat;
        let ghost nv = node@;
        let ghost nsv = nodes_view(node_set@);
        let ghost k = min_fuel(last, nv, nsv);
        let ghost result = expand_result(last, nv, nsv);
        proof {
            let k0 = choose|k0: nat| #[trigger] expand_spec(k0, last, nv, nsv) is Some;
            lemma_min_fuel(k0, last, nv, nsv);
            assert(k > 0);
            lemma_expand_last_grows(k, last, nv, nsv);
        }
        let mut node = node;
        let mut node_set = node_set;
        if node.newf.len() == 0 {
            proof {
                assert(views(node.newf@) =~= Seq::<NnfV>::empty());
                assert(nv.newf =~= Set::<NnfV>::empty());
            }
            match find_pair(&node_set, &node.oldf, &node.next) {
                Some(i) => {
                    let ghost old_ns = node_set@;
                    let mut nd = node_set.remove(i);
                    nd.incoming = ids_union(&nd.incoming, &node.incoming);
                    let ghost ndv = nd@;
                    node_set.insert(i, nd);
                    proof {
                        assert(nodes_view(node_set@) =~= nsv.update(
                            i as int,
                            NodeV { incoming: nsv[i as int].incoming.union(nv.incoming), ..nsv[i as int] },
                        )) by {
                            assert(ndv =~= NodeV {
                                incoming: nsv[i as int].incoming.union(nv.incoming),
                                ..nsv[i as int]
                            });
                        }
                        assert forall|j: int| 0 <= j < node_set@.len() implies node_wf(
                            #[trigger] node_set@[j],
                        ) by {
                            if j != i {
                                assert(node_set@[j] == old_ns[j]);
                            }
                        }
                        assert(names_sorted(nodes_view(node_set@))) by {
                            assert forall|a: int, b: int| 0 <= a < b < node_set@.len() implies nodes_view(
                                node_set@,
                            )[a].name < nodes_view(node_set@)[b].name by {
                                assert(nsv[a].name < nsv[b].name);
                            }
                        }
                        assert forall|j: int| 0 <= j < node_set@.len() implies (#[trigger] node_set@[j].name.0
                            == node.name.0 || (last < node_set@[j].name.0 <= last) || exists|m: int|
                            0 <= m < old_ns.len() && old_ns[m].name.0 == node_set@[j].name.0) by {
                            assert(old_ns[j].name.0 == node_set@[j].name.0);
                        }
                    }
                    return node_set;
                },
                None => {
                    let ghost new_nv = NodeV {
                        name: (last + 1) as u32,
                        incoming: set![nv.name],
                        newf: nv.next,
                        next: Set::empty(),
                        oldf: Set::empty(),
                    };
                    let ghost ins = insert_by_name(nsv, nv);
                    proof {
                        lemma_min_fuel((k - 1) as nat, last + 1, new_nv, ins);
                        lemma_expand_last_grows((k - 1) as nat, last + 1, new_nv, ins);
                    }
                    let name = self.new_name();
                    let new_node = Node {
                        name,
                        incoming: vec![AutomataId(node.name.0)],
                        newf: fset_clone(&node.next),
                        next: Vec::new(),
                        oldf: Vec::new(),
                    };
                    proof {
                        assert(ids_view(new_node.incoming@) =~= seq![nv.name]);
                        assert(seq![nv.name].to_set() =~= set![nv.name]) by {
                            assert(seq![nv.name].to_set().contains(nv.name)) by {
                                assert(seq![nv.name][0] == nv.name);
                            }
                        }
                        assert(views(new_node.next@) =~= Seq::<NnfV>::empty());
                        assert(views(new_node.oldf@) =~= Seq::<NnfV>::empty());
                        assert(Seq::<NnfV>::empty().to_set() =~= Set::<NnfV>::empty());
                        assert(new_node@ =~= new_nv);
                    }
                    let ghost old_ns = node_set@;
                    let ghost node_name = node.name.0;
                    insert_node(&mut node_set, node);
                    let ghost ns2 = node_set@;
                    let r = self.expand(new_node, node_set);
                    proof {
                        assert forall|j: int| 0 <= j < r@.len() implies (#[trigger] r@[j].name.0
                            == node_name || (last < r@[j].name.0 <= self.last_id) || exists|m: int|
                            0 <= m < old_ns.len() && old_ns[m].name.0 == r@[j].name.0) by {
                            if r@[j].name.0 != name.0 && !(name.0 < r@[j].name.0 <= self.last_id) {
                                let m = choose|m: int| 0 <= m < ns2.len() && ns2[m].name.0 == r@[j].name.0;
                                assert(ns2[m].name.0 == node_name || exists|m2: int|
                                    0 <= m2 < old_ns.len() && old_ns[m2].name.0 == ns2[m].name.0);
                            }
                        }
                    }
                    return r;
                },
            }
        }
        let ghost newf0 = node.newf@;
        let n = node.newf.remove(0);
        let ghost nn = n@;
        let ghost rest = nv.newf.remove(nn);
        proof {
            assert(node.newf@ =~= newf0.drop_first());
            lemma_pop_least(newf0);
            assert(nn == least(nv.newf));
            assert(fset(node.newf@) == rest);
            assert(nv.newf.contains(nn));
            assert(!nv.newf.is_empty());
        }
        match &n {
            NnfLtl::Literal { .. } | NnfLtl::Bool(_) => {
                if contradicts_exec(&n, &node.oldf) {
                    proof {
                        assert(expand_spec(k, last, nv, nsv) == Some((nsv, last)));
                        assert forall|j: int| 0 <= j < node_set@.len() implies (#[trigger] node_set@[j].name.0
                            == nv.name || (last < node_set@[j].name.0 <= last) || exists|m: int|
                            0 <= m < node_set@.len() && node_set@[m].name.0 == node_set@[j].name.0) by {
                        }
                    }
                    return node_set;
                }
                fset_insert(&mut node.oldf, n);
                proof {
                    assert(node@ =~= NodeV { newf: rest, oldf: nv.oldf.insert(nn), ..nv });
                    lemma_min_fuel((k - 1) as nat, last, node@, nsv);
                }
                let r = self.expand(node, node_set);
                return r;
            },
            NnfLtl::And(p, q) => {
                let mut pq: Vec<NnfLtl> = Vec::new();
                proof {
                    assert(views(pq@) =~= Seq::<NnfV>::empty());
                }
                fset_insert(&mut pq, (**p).clone());
                fset_insert(&mut pq, (**q).clone());
                let oldf_new = fset_union(&node.oldf, &pq);
                let minus = fset_minus(&pq, &node.oldf);
                let newf_new = fset_union(&node.newf, &minus);
                node.oldf = oldf_new;
                node.newf = newf_new;
                proof {
                    assert(fset(pq@) =~= set![(**p)@, (**q)@]);
                    assert(nn == NnfV::And(Box::new((**p)@), Box::new((**q)@)));
                    assert(node@ =~= NodeV {
                        oldf: nv.oldf.insert((**p)@).insert((**q)@),
                        newf: rest.union(set![(**p)@, (**q)@].difference(nv.oldf)),
                        ..nv
                    });
                    lemma_min_fuel((k - 1) as nat, last, node@, nsv);
                }
                let r = self.expand(node, node_set);
                return r;
            },
            NnfLtl::X(p) => {
                fset_insert(&mut node.next, (**p).clone());
                fset_insert(&mut node.oldf, n.clone());
                proof {
                    assert(nn == NnfV::X(Box::new((**p)@)));
                    assert(node@ =~= NodeV {
                        next: nv.next.insert((**p)@),
                        oldf: nv.oldf.insert(nn),
                        newf: rest,
                        ..nv
                    });
                    lemma_min_fuel((k - 1) as nat, last, node@, nsv);
                }
                let r = self.expand(node, node_set);
                return r;
            },
            _ => {},
        }
        let (new1, next1, new2) = new1_next1_new2(&n);
        let ghost n1v = NodeV {
            name: (last + 1) as u32,
            incoming: nv.incoming,
            next: nv.next.union(next1_of(nn)),
            oldf: nv.oldf.insert(nn),
            newf: rest.union(new1_of(nn).difference(nv.oldf)),
        };
        let ghost n2v = NodeV {
            name: (last + 2) as u32,
            incoming: nv.incoming,
            next: nv.next,
            oldf: nv.oldf.insert(nn),
            newf: rest.union(new2_of(nn).difference(nv.oldf)),
        };
        proof {
            lemma_min_fuel((k - 1) as nat, last + 2, n1v, nsv);
            lemma_expand_last_grows((k - 1) as nat, last + 2, n1v, nsv);
            let (t, l) = expand_spec((k - 1) as nat, last + 2, n1v, nsv).unwrap();
            lemma_min_fuel((k - 1) as nat, l, n2v, t);
            lemma_expand_last_grows((k - 1) as nat, l, n2v, t);
        }
        let mut oldf1 = fset_clone(&node.oldf);
        fset_insert(&mut oldf1, n.clone());
        let minus1 = fset_minus(&new1, &node.oldf);
        let newf1 = fset_union(&node.newf, &minus1);
        let next_1 = fset_union(&node.next, &next1);
        let minus2 = fset_minus(&new2, &node.oldf);
        let newf2 = fset_union(&node.newf, &minus2);
        let mut oldf2 = fset_clone(&node.oldf);
        fset_insert(&mut oldf2, n);
        let name1 = self.new_name();
        let n1 = Node {
            name: name1,
            incoming: ids_copy(&node.incoming),
            next: next_1,
            oldf: oldf1,
            newf: newf1,
        };
        let name2 = self.new_name();
        let n2 = Node { name: name2, incoming: node.incoming, next: node.next, oldf: oldf2, newf: newf2 };
        proof {
            assert(n1@ =~= n1v);
            assert(n2@ =~= n2v);
        }
        let ghost ns0 = node_set@;
        let tmp = self.expand(n1, node_set);
        let ghost l1 = self.last_id;
        let ghost tmpv = tmp@;
        proof {
            assert forall|j: int| 0 <= j < tmp@.len() implies #[trigger] tmp@[j].name.0 <= l1
                && tmp@[j].name.0 != name2.0 by {
                if tmp@[j].name.0 != name1.0 && !(name2.0 < tmp@[j].name.0 <= l1) {
                    let m = choose|m: int| 0 <= m < ns0.len() && ns0[m].name.0 == tmp@[j].name.0;
                    assert(ns0[m].name.0 <= last);
                }
            }
        }
        let r = self.expand(n2, tmp);
        proof {
            assert forall|j: int| 0 <= j < r@.len() implies (#[trigger] r@[j].name.0 == nv.name || (
            last < r@[j].name.0 <= self.last_id) || exists|m: int| 0 <= m < ns0.len()
                && ns0[m].name.0 == r@[j].name.0) by {
                if r@[j].name.0 != name2.0 && !(l1 < r@[j].name.0 <= self.last_id) {
                    let m = choose|m: int| 0 <= m < tmpv.len() && tmpv[m].name.0 == r@[j].name.0;
                    assert(tmpv[m].name.0 == name1.0 || (name2.0 < tmpv[m].name.0 <= l1) || exists|
                        m2: int,
                    | 0 <= m2 < ns0.len() && ns0[m2].name.0 == tmpv[m].name.0);
                }
            }
        }
        r
    }
}


/// The node the construction starts from: name 1, coming from the initial
/// pseudo-node, with the formula still to be processed.
pub open spec fn initial_node(f: NnfV) -> NodeV {
    NodeV {
        name: 1,
        incoming: set![0u32],
        newf: set![f],
        oldf: Set::empty(),
        next: Set::empty(),
    }
}

/// The names that the construction on `f` hands out fit in a `u32` (it
/// terminates on every formula: `lemma_tableau_terminates`).
pub open spec fn tableau_fits(f: NnfV) -> bool {
    expand_result(1, initial_node(f), Seq::empty()).1 <= u32::MAX
}

/// The node set of the tableau of `f`.
pub open spec fn tableau(f: NnfV) -> Seq<NodeV> {
    expand_result(1, initial_node(f), Seq::empty()).0
}

impl AutomataGraph {
    /// The graph of the tableau of `f`: the nodes that `expand` yields from
    /// the initial node, sorted by name.
    pub fn create_graph(f: &NnfLtl) -> (r: Vec<Node>)
        requires
            tableau_fits(f@),
        ensures
            nodes_wf(r@),
            nodes_view(r@) == tableau(f@),
    {
        let mut g = AutomataGraph::new();
        let init = g.initial();
        let name = g.new_name();
        let mut newf: Vec<NnfLtl> = Vec::new();
        proof {
            assert(views(newf@) =~= Seq::<NnfV>::empty());
        }
        fset_insert(&mut newf, f.clone());
        let n = Node { name, incoming: vec![init], newf, oldf: Vec::new(), next: Vec::new() };
        proof {
            assert(ids_view(n.incoming@) =~= seq![0u32]);
            assert(seq![0u32].to_set() =~= set![0u32]) by {
                assert(seq![0u32][0] == 0u32);
            }
            assert(views(n.next@) =~= Seq::<NnfV>::empty());
            assert(views(n.oldf@) =~= Seq::<NnfV>::empty());
            assert(Seq::<NnfV>::empty().to_set() =~= Set::<NnfV>::empty());
            assert(n@ =~= initial_node(f@));
            assert(nodes_view(Seq::<Node>::empty()) =~= Seq::<NodeV>::empty());
        }
        let node_set: Vec<Node> = Vec::new();
        proof {
            assert(nodes_view(node_set@) =~= Seq::<NodeV>::empty());
            lemma_tableau_terminates(f@);
        }
        g.expand(n, node_set)
    }
}

impl AutomataId {
    /// The name as text: `A0i` for the initial pseudo-node, `A<n>` otherwise.
    pub fn name(&self) -> (r: String)
        ensures
            r@ == (if self.0 == 0 {
                "A0i"@
            } else {
                "A"@ + decimal_text(self.0 as nat)
            }),
    {
        if self.0 == 0 {
            let mut s = String::new();
            s.append("A0i");
            s
        } else {
            let mut s = String::new();
            s.append("A");
            s.append(decimal(self.0 as u64).as_str());
            s
        }
    }
}

} // verus!
