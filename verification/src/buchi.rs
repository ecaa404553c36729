//! Büchi automata over sets of atomic propositions: node arenas, alphabets,
//! transition labels, and generalized Büchi automata.
use vstd::prelude::*;

use crate::ltl::automata::AutomataId;
use crate::ltl::expression::Literal;
use crate::names::{
    compare_names, label_order, lemma_label_order_facts, lemma_label_order_trans,
    lemma_names_canonical, lemma_sorted_names, name_contains, name_insert, name_set, names, names_copy,
    names_equal, names_sorted, sorted_names,
};
use crate::text::{decimal, decimal_text};

verus! {

/// The index of a node in an arena.
#[derive(Clone, Copy, PartialEq, Eq, Structural, Debug)]
pub struct NodeId(pub u32);

impl NodeId {
    /// The node with index `id`.
    pub fn new(id: u32) -> (r: NodeId)
        ensures
            r.0 == id,
    {
        NodeId(id)
    }

    /// The same index, for another kind of node.
    pub fn transmute(&self) -> (r: NodeId)
        ensures
            r.0 == self.0,
    {
        NodeId(self.0)
    }
}

/// Nodes by index.
pub struct NodeArena<N> {
    pub nodes: Vec<N>,
}

impl<N> NodeArena<N> {
    /// The empty arena.
    pub fn new() -> (r: Self)
        ensures
            r.nodes@.len() == 0,
    {
        NodeArena { nodes: Vec::new() }
    }

    /// The number of nodes.
    pub fn len(&self) -> (r: usize)
        ensures
            r == self.nodes@.len(),
    {
        self.nodes.len()
    }

    /// Whether there is no node.
    pub fn is_empty(&self) -> (r: bool)
        ensures
            r == (self.nodes@.len() == 0),
    {
        self.len() == 0
    }

    /// Adds a node; its index is the number of nodes before it.
    pub fn push(&mut self, node: N) -> (r: NodeId)
        requires
            old(self).nodes@.len() < u32::MAX,
        ensures
            r.0 == old(self).nodes@.len(),
            final(self).nodes@ == old(self).nodes@.push(node),
    {
        let id = self.nodes.len() as u32;
        self.nodes.push(node);
        NodeId(id)
    }

    /// The nodes, in order of index.
    pub fn iter(&self) -> (r: &[N])
        ensures
            r@ == self.nodes@,
    {
        self.nodes.as_slice()
    }

    /// The nodes, in order of index, to change in place.
    pub fn iter_mut(&mut self) -> (r: &mut Vec<N>)
        ensures
            *r == old(self).nodes,
            final(self).nodes == *final(r),
    {
        &mut self.nodes
    }

    /// The nodes with their indexes, in order of index.
    pub fn iter_with_ids(&self) -> (r: Vec<(NodeId, &N)>)
        requires
            self.nodes@.len() <= u32::MAX,
        ensures
            r@.len() == self.nodes@.len(),
            forall|i: int|
                0 <= i < r@.len() ==> (#[trigger] r@[i]).0.0 == i && *r@[i].1 == self.nodes@[i],
    {
        let mut r: Vec<(NodeId, &N)> = Vec::new();
        let mut i: usize = 0;
        while i < self.nodes.len()
            invariant
                i <= self.nodes@.len(),
                self.nodes@.len() <= u32::MAX,
                r@.len() == i,
                forall|k: int|
                    0 <= k < i ==> (#[trigger] r@[k]).0.0 == k && *r@[k].1 == self.nodes@[k],
            decreases self.nodes@.len() - i,
        {
            r.push((NodeId(i as u32), &self.nodes[i]));
            i = i + 1;
        }
        r
    }

    /// The indexes of the nodes, in order.
    pub fn ids(&self) -> (r: Vec<NodeId>)
        requires
            self.nodes@.len() <= u32::MAX,
        ensures
            r@.len() == self.nodes@.len(),
            forall|i: int| 0 <= i < r@.len() ==> (#[trigger] r@[i]).0 == i,
    {
        let mut r: Vec<NodeId> = Vec::new();
        let mut i: usize = 0;
        while i < self.nodes.len()
            invariant
                i <= self.nodes@.len(),
                self.nodes@.len() <= u32::MAX,
                r@.len() == i,
                forall|k: int| 0 <= k < i ==> (#[trigger] r@[k]).0 == k,
            decreases self.nodes@.len() - i,
        {
            r.push(NodeId(i as u32));
            i = i + 1;
        }
        r
    }

    /// The node with index `id`.
    pub fn get(&self, id: NodeId) -> (r: &N)
        requires
            id.0 < self.nodes@.len(),
        ensures
            *r == self.nodes@[id.0 as int],
    {
        &self.nodes[id.0 as usize]
    }
}

/// The states of an automaton: there is an initial one, each has a name,
/// and they can be compared and copied, by their views.
pub trait State: Sized + View {
    /// The view of the initial state.
    spec fn initial_state() -> Self::V;

    fn initial() -> (r: Self)
        ensures
            r@ == Self::initial_state(),
    ;

    /// The name of a state, by its view.
    spec fn state_name(v: Self::V) -> Seq<char>;

    fn name(&self) -> (r: String)
        ensures
            r@ == Self::state_name(self@),
    ;

    fn same(&self, other: &Self) -> (r: bool)
        ensures
            r == (self@ == other@),
    ;

    fn duplicate(&self) -> (r: Self)
        ensures
            r@ == self@,
    ;
}

impl State for AutomataId {
    open spec fn initial_state() -> AutomataId {
        AutomataId(0)
    }

    /// `A0i` for the initial pseudo-node, else `A` and the number.
    open spec fn state_name(v: AutomataId) -> Seq<char> {
        if v.0 == 0 {
            "A0i"@
        } else {
            "A"@ + decimal_text(v.0 as nat)
        }
    }

    fn initial() -> Self {
        AutomataId(0)
    }

    fn name(&self) -> String {
        if self.0 == 0 {
            String::from_str("A0i")
        } else {
            let mut s = String::from_str("A");
            s.append(decimal(self.0 as u64).as_str());
            s
        }
    }

    fn same(&self, other: &Self) -> (r: bool) {
        self.0 == other.0
    }

    fn duplicate(&self) -> (r: Self) {
        AutomataId(self.0)
    }
}

impl State for usize {
    open spec fn initial_state() -> usize {
        0
    }

    /// The number in decimal.
    open spec fn state_name(v: usize) -> Seq<char> {
        decimal_text(v as nat)
    }

    fn initial() -> Self {
        0
    }

    fn name(&self) -> String {
        decimal(*self as u64)
    }

    fn same(&self, other: &Self) -> (r: bool) {
        *self == *other
    }

    fn duplicate(&self) -> (r: Self) {
        *self
    }
}

impl State for String {
    open spec fn initial_state() -> Seq<char> {
        "INIT"@
    }

    /// The string itself.
    open spec fn state_name(v: Seq<char>) -> Seq<char> {
        v
    }

    fn initial() -> Self {
        String::from_str("INIT")
    }

    fn name(&self) -> String {
        self.clone()
    }

    fn same(&self, other: &Self) -> (r: bool) {
        *self == *other
    }

    fn duplicate(&self) -> (r: Self) {
        self.clone()
    }
}

impl<A: State, B: State> State for (A, B) {
    open spec fn initial_state() -> (A::V, B::V) {
        (A::initial_state(), B::initial_state())
    }

    /// The two names joined by `#`.
    open spec fn state_name(v: (A::V, B::V)) -> Seq<char> {
        A::state_name(v.0) + "#"@ + B::state_name(v.1)
    }

    fn initial() -> Self {
        (A::initial(), B::initial())
    }

    fn name(&self) -> String {
        let mut s = self.0.name();
        s.append("#");
        s.append(self.1.name().as_str());
        s
    }

    fn same(&self, other: &Self) -> (r: bool) {
        self.0.same(&other.0) && self.1.same(&other.1)
    }

    fn duplicate(&self) -> (r: Self) {
        (self.0.duplicate(), self.1.duplicate())
    }
}

/// The atomic propositions of an automaton, sorted by name.
pub struct Alphabet {
    pub symbols: Vec<Literal>,
}

impl Alphabet {
    /// The names of the symbols, in order.
    pub open spec fn view_names(&self) -> Seq<Seq<char>> {
        names(self.symbols@)
    }

    /// The symbols are sorted and distinct.
    pub open spec fn wf(&self) -> bool {
        names_sorted(names(self.symbols@))
    }

    /// The alphabet of the given propositions.
    pub fn from_literals(v: &Vec<Literal>) -> (r: Alphabet)
        ensures
            r.wf(),
            name_set(r.symbols@) == names(v@).to_set(),
    {
        let mut symbols: Vec<Literal> = Vec::new();
        let mut i: usize = 0;
        proof {
            assert(names(symbols@).to_set() =~= names(v@.take(0)).to_set());
        }
        while i < v.len()
            invariant
                i <= v@.len(),
                names_sorted(names(symbols@)),
                name_set(symbols@) == names(v@.take(i as int)).to_set(),
            decreases v@.len() - i,
        {
            name_insert(&mut symbols, v[i].clone());
            proof {
                assert(names(v@.take(i + 1)) =~= names(v@.take(i as int)).push(v@[i as int]@));
                names(v@.take(i as int)).lemma_push_to_set_commute(v@[i as int]@);
            }
            i = i + 1;
        }
        proof {
            assert(v@.take(i as int) =~= v@);
        }
        Alphabet { symbols }
    }

    /// The symbols, in order.
    pub fn symbols(&self) -> (r: &[Literal])
        ensures
            r@ == self.symbols@,
    {
        self.symbols.as_slice()
    }

    /// The symbols of both alphabets, sorted.
    pub fn union(&self, other: &Alphabet) -> (r: Alphabet)
        requires
            self.wf(),
        ensures
            r.wf(),
            name_set(r.symbols@) == name_set(self.symbols@) + name_set(other.symbols@),
    {
        let mut symbols = names_copy(&self.symbols);
        let mut i: usize = 0;
        proof {
            assert(names(other.symbols@.take(0)).to_set() =~= Set::empty());
            assert(name_set(symbols@) =~= name_set(self.symbols@) + names(other.symbols@.take(0)).to_set());
        }
        while i < other.symbols.len()
            invariant
                i <= other.symbols@.len(),
                names_sorted(names(symbols@)),
                name_set(symbols@) == name_set(self.symbols@) + names(other.symbols@.take(
                    i as int,
                )).to_set(),
            decreases other.symbols@.len() - i,
        {
            name_insert(&mut symbols, other.symbols[i].clone());
            proof {
                assert(names(other.symbols@.take(i + 1)) =~= names(other.symbols@.take(i as int)).push(
                    other.symbols@[i as int]@,
                ));
                names(other.symbols@.take(i as int)).lemma_push_to_set_commute(
                    other.symbols@[i as int]@,
                );
                assert(name_set(symbols@) =~= name_set(self.symbols@) + names(other.symbols@.take(
                    i + 1,
                )).to_set());
            }
            i = i + 1;
        }
        proof {
            assert(other.symbols@.take(i as int) =~= other.symbols@);
        }
        Alphabet { symbols }
    }
}

/// The sets of propositions that label a transition: any set, or those
/// listed.
pub enum Neighbors {
    Any,
    Just(Vec<Vec<Literal>>),
}

/// The abstract value of a label: any set, or a set of sorted name lists.
pub enum NeighborsV {
    Any,
    Just(Set<Seq<Seq<char>>>),
}

/// The sorted name lists of the sets of a label.
pub open spec fn label_sets(v: Seq<Vec<Literal>>) -> Set<Seq<Seq<char>>> {
    v.map_values(|s: Vec<Literal>| names(s@)).to_set()
}

impl View for Neighbors {
    type V = NeighborsV;

    open spec fn view(&self) -> NeighborsV {
        match self {
            Neighbors::Any => NeighborsV::Any,
            Neighbors::Just(v) => NeighborsV::Just(label_sets(v@)),
        }
    }
}

/// Each set of the label is sorted, and the sets are listed in strictly
/// increasing order.
pub open spec fn labels_wf(v: Seq<Vec<Literal>>) -> bool {
    &&& forall|i: int| 0 <= i < v.len() ==> names_sorted(names((#[trigger] v[i])@))
    &&& forall|i: int, j: int|
        0 <= i < j < v.len() ==> label_order(names((#[trigger] v[i])@), names((#[trigger] v[j])@)) < 0
}

/// Inserts a sorted set of names into a well-formed label, where it is not
/// there yet.
pub fn label_insert(v: &mut Vec<Vec<Literal>>, x: Vec<Literal>)
    requires
        labels_wf(old(v)@),
        names_sorted(names(x@)),
    ensures
        labels_wf(final(v)@),
        label_sets(final(v)@) == label_sets(old(v)@).insert(names(x@)),
{
    let ghost k = names(x@);
    let ghost old_v = v@;
    let ghost old_keys = v@.map_values(|l: Vec<Literal>| names(l@));
    let mut i: usize = 0;
    let mut go = true;
    while go && i < v.len()
        invariant
            i <= v@.len(),
            k == names(x@),
            v@ == old_v,
            old_v == old(v)@,
            old_keys == old_v.map_values(|l: Vec<Literal>| names(l@)),
            labels_wf(old_v),
            forall|j: int| 0 <= j < i ==> label_order(#[trigger] old_keys[j], k) < 0,
            !go ==> i < v@.len() && label_order(old_keys[i as int], k) >= 0,
        decreases v@.len() - i + (if go { 1int } else { 0int }),
    {
        assert(old_keys[i as int] == names(v@[i as int]@));
        if compare_names(&v[i], &x) < 0 {
            i = i + 1;
        } else {
            go = false;
        }
    }
    if i < v.len() && compare_names(&v[i], &x) == 0 {
        proof {
            assert(old_keys[i as int] == names(v@[i as int]@));
            lemma_label_order_facts(old_keys[i as int], k);
            assert(old_keys.contains(k));
            assert(old_keys.to_set().insert(k) =~= old_keys.to_set());
        }
        return;
    }
    proof {
        if i < v@.len() {
            assert(old_keys[i as int] == names(v@[i as int]@));
            lemma_label_order_facts(old_keys[i as int], k);
        }
    }
    v.insert(i, x);
    proof {
        let nk = v@.map_values(|l: Vec<Literal>| names(l@));
        assert(nk =~= old_keys.insert(i as int, k));
        assert forall|a: int, b: int| 0 <= a < b < v@.len() implies label_order(
            names((#[trigger] v@[a])@),
            names((#[trigger] v@[b])@),
        ) < 0 by {
            assert(nk[a] == names(v@[a]@) && nk[b] == names(v@[b]@));
            if b < i {
                assert(nk[a] == old_keys[a] && nk[b] == old_keys[b]);
                assert(old_keys[a] == names(old_v[a]@) && old_keys[b] == names(old_v[b]@));
            } else if a < i && b == i {
            } else if a < i && b > i {
                assert(nk[b] == old_keys[b - 1]);
                if b - 1 > i {
                    assert(old_keys[i as int] == names(old_v[i as int]@));
                    assert(old_keys[b - 1] == names(old_v[b - 1]@));
                    lemma_label_order_trans(k, old_keys[i as int], old_keys[b - 1]);
                }
                lemma_label_order_trans(nk[a], k, nk[b]);
            } else if a == i {
                assert(nk[b] == old_keys[b - 1]);
                if b - 1 > i {
                    assert(old_keys[i as int] == names(old_v[i as int]@));
                    assert(old_keys[b - 1] == names(old_v[b - 1]@));
                    lemma_label_order_trans(k, old_keys[i as int], old_keys[b - 1]);
                }
            } else {
                assert(nk[a] == old_keys[a - 1]);
                assert(nk[b] == old_keys[b - 1]);
                assert(old_keys[a - 1] == names(old_v[a - 1]@) && old_keys[b - 1] == names(old_v[b - 1]@));
            }
        }
        assert forall|a: int| 0 <= a < v@.len() implies names_sorted(names((#[trigger] v@[a])@)) by {
            if a < i {
                assert(v@[a] == old_v[a]);
            } else if a > i {
                assert(v@[a] == old_v[a - 1]);
            }
        }
        assert(nk.to_set() =~= old_keys.to_set().insert(k)) by {
            assert forall|y: Seq<Seq<char>>| nk.to_set().contains(y) implies old_keys.to_set().insert(
                k,
            ).contains(y) by {
                let t = choose|t: int| 0 <= t < nk.len() && nk[t] == y;
                if t < i {
                    assert(old_keys[t] == y);
                } else if t > i {
                    assert(old_keys[t - 1] == y);
                }
            }
            assert forall|y: Seq<Seq<char>>| old_keys.to_set().insert(k).contains(y) implies nk.to_set().contains(
                y,
            ) by {
                if y == k {
                    assert(nk[i as int] == k);
                } else {
                    let t = choose|t: int| 0 <= t < old_keys.len() && old_keys[t] == y;
                    if t < i {
                        assert(nk[t] == y);
                    } else {
                        assert(nk[t + 1] == y);
                    }
                }
            }
        }
    }
}

impl Neighbors {
    /// The label is well formed.
    pub open spec fn wf(&self) -> bool {
        match self {
            Neighbors::Any => true,
            Neighbors::Just(v) => labels_wf(v@),
        }
    }

    /// The label of no transition.
    pub fn none() -> (r: Neighbors)
        ensures
            r.wf(),
            r@ == NeighborsV::Just(Set::empty()),
    {
        let r = Neighbors::Just(Vec::new());
        proof {
            assert(label_sets(Seq::<Vec<Literal>>::empty()) =~= Set::empty());
        }
        r
    }

    /// The label that any set of propositions satisfies.
    pub fn any(alphabet: &Alphabet) -> (r: Neighbors)
        ensures
            r.wf(),
            r@ == NeighborsV::Any,
    {
        Neighbors::Any
    }

    /// Whether no set satisfies the label.
    pub fn is_empty(&self) -> (r: bool)
        requires
            self.wf(),
        ensures
            r == (self@ matches NeighborsV::Just(s) && s.len() == 0),
    {
        match self {
            Neighbors::Just(v) => {
                proof {
                    let s = v@.map_values(|x: Vec<Literal>| names(x@));
                    if v@.len() > 0 {
                        assert(s.to_set().contains(s[0]));
                        assert(s.to_set().len() > 0) by {
                            vstd::seq_lib::seq_to_set_is_finite(s);
                            if s.to_set().len() == 0 {
                                s.to_set().lemma_len0_is_empty();
                            }
                        }
                    } else {
                        assert(s.to_set() =~= Set::empty());
                    }
                }
                v.len() == 0
            },
            Neighbors::Any => false,
        }
    }

    /// A copy of the label.
    pub fn copy(&self) -> (r: Neighbors)
        requires
            self.wf(),
        ensures
            r.wf(),
            r@ == self@,
    {
        match self {
            Neighbors::Any => Neighbors::Any,
            Neighbors::Just(v) => {
                let mut w: Vec<Vec<Literal>> = Vec::new();
                let mut i: usize = 0;
                while i < v.len()
                    invariant
                        i <= v@.len(),
                        labels_wf(v@),
                        w@.len() == i,
                        forall|k: int| 0 <= k < i ==> names((#[trigger] w@[k])@) == names(v@[k]@),
                    decreases v@.len() - i,
                {
                    w.push(names_copy(&v[i]));
                    i = i + 1;
                }
                proof {
                    assert(w@.map_values(|x: Vec<Literal>| names(x@)) =~= v@.map_values(
                        |x: Vec<Literal>| names(x@),
                    ));
                    assert(labels_wf(w@));
                }
                Neighbors::Just(w)
            },
        }
    }
}

/// The label of the transitions of either label: any set where either
/// takes any, else the sets of both.
pub open spec fn union_of(a: NeighborsV, b: NeighborsV) -> NeighborsV {
    match (a, b) {
        (NeighborsV::Just(x), NeighborsV::Just(y)) => NeighborsV::Just(x + y),
        _ => NeighborsV::Any,
    }
}

/// The label of the transitions of both labels.
pub open spec fn intersection_of(a: NeighborsV, b: NeighborsV) -> NeighborsV {
    match (a, b) {
        (NeighborsV::Just(x), NeighborsV::Just(y)) => NeighborsV::Just(x.intersect(y)),
        (NeighborsV::Any, _) => b,
        (_, NeighborsV::Any) => a,
    }
}

/// The labels share no set; a label that takes any set shares with all.
pub open spec fn disjoint_of(a: NeighborsV, b: NeighborsV) -> bool {
    match (a, b) {
        (NeighborsV::Just(x), NeighborsV::Just(y)) => x.disjoint(y),
        _ => false,
    }
}

/// Whether the label lists the set `x`.
fn label_contains(v: &Vec<Vec<Literal>>, x: &Vec<Literal>) -> (r: bool)
    ensures
        r == label_sets(v@).contains(names(x@)),
{
    let ghost m = v@.map_values(|l: Vec<Literal>| names(l@));
    let mut i: usize = 0;
    while i < v.len()
        invariant
            i <= v@.len(),
            m == v@.map_values(|l: Vec<Literal>| names(l@)),
            forall|j: int| 0 <= j < i ==> #[trigger] m[j] != names(x@),
        decreases v@.len() - i,
    {
        if names_equal(&v[i], x) {
            proof {
                assert(m[i as int] == names(x@));
            }
            return true;
        }
        i = i + 1;
    }
    proof {
        if m.to_set().contains(names(x@)) {
            let j = choose|j: int| 0 <= j < m.len() && m[j] == names(x@);
            assert(m[j] != names(x@));
        }
    }
    false
}

proof fn lemma_label_sets_take(v: Seq<Vec<Literal>>, i: int)
    requires
        0 <= i < v.len(),
    ensures
        label_sets(v.take(i + 1)) == label_sets(v.take(i)).insert(names(v[i]@)),
{
    let m = v.take(i).map_values(|l: Vec<Literal>| names(l@));
    assert(v.take(i + 1).map_values(|l: Vec<Literal>| names(l@)) =~= m.push(names(v[i]@)));
    m.lemma_push_to_set_commute(names(v[i]@));
}

/// Adds the sets of `v` to the label `w`.
fn labels_extend(w: &mut Vec<Vec<Literal>>, v: &Vec<Vec<Literal>>)
    requires
        labels_wf(old(w)@),
        labels_wf(v@),
    ensures
        labels_wf(final(w)@),
        label_sets(final(w)@) == label_sets(old(w)@) + label_sets(v@),
{
    let ghost w0 = label_sets(w@);
    let mut i: usize = 0;
    proof {
        assert(v@.take(0).map_values(|l: Vec<Literal>| names(l@)) =~= Seq::<Seq<Seq<char>>>::empty());
        assert(w0 + label_sets(v@.take(0)) =~= w0);
    }
    while i < v.len()
        invariant
            i <= v@.len(),
            labels_wf(v@),
            labels_wf(w@),
            label_sets(w@) == w0 + label_sets(v@.take(i as int)),
        decreases v@.len() - i,
    {
        label_insert(w, names_copy(&v[i]));
        proof {
            lemma_label_sets_take(v@, i as int);
            assert(label_sets(w@) =~= w0 + label_sets(v@.take(i + 1)));
        }
        i = i + 1;
    }
    proof {
        assert(v@.take(i as int) =~= v@);
    }
}

impl Neighbors {
    /// The label of a single set: the given propositions.
    pub fn from_literals(v: &Vec<Literal>) -> (r: Neighbors)
        ensures
            r.wf(),
            r@ == NeighborsV::Just(set![sorted_names(names(v@).to_set())]),
    {
        let mut set: Vec<Literal> = Vec::new();
        let mut i: usize = 0;
        proof {
            assert(names(set@).to_set() =~= names(v@.take(0)).to_set());
        }
        while i < v.len()
            invariant
                i <= v@.len(),
                names_sorted(names(set@)),
                name_set(set@) == names(v@.take(i as int)).to_set(),
            decreases v@.len() - i,
        {
            name_insert(&mut set, v[i].clone());
            proof {
                assert(names(v@.take(i + 1)) =~= names(v@.take(i as int)).push(v@[i as int]@));
                names(v@.take(i as int)).lemma_push_to_set_commute(v@[i as int]@);
            }
            i = i + 1;
        }
        proof {
            assert(v@.take(i as int) =~= v@);
            lemma_sorted_names(names(set@));
        }
        let ghost key = names(set@);
        let labels = vec![set];
        proof {
            assert(labels@.map_values(|l: Vec<Literal>| names(l@)) =~= seq![key]);
            assert(seq![key].to_set() =~= set![key]) by {
                assert(seq![key][0] == key);
            }
        }
        Neighbors::Just(labels)
    }

    /// The label of the transitions of either label.
    pub fn union(&self, other: &Neighbors) -> (r: Neighbors)
        requires
            self.wf(),
            other.wf(),
        ensures
            r.wf(),
            r@ == union_of(self@, other@),
    {
        match (self, other) {
            (Neighbors::Just(a), Neighbors::Just(b)) => {
                let mut w: Vec<Vec<Literal>> = Vec::new();
                proof {
                    assert(label_sets(w@) =~= Set::<Seq<Seq<char>>>::empty());
                }
                labels_extend(&mut w, a);
                labels_extend(&mut w, b);
                proof {
                    assert(label_sets(w@) =~= label_sets(a@) + label_sets(b@));
                }
                Neighbors::Just(w)
            },
            _ => Neighbors::Any,
        }
    }

    /// The label of the transitions of both labels.
    pub fn intersection(&self, other: &Neighbors) -> (r: Neighbors)
        requires
            self.wf(),
            other.wf(),
        ensures
            r.wf(),
            r@ == intersection_of(self@, other@),
    {
        match (self, other) {
            (Neighbors::Just(a), Neighbors::Just(b)) => {
                let mut w: Vec<Vec<Literal>> = Vec::new();
                let mut i: usize = 0;
                proof {
                    assert(a@.take(0).map_values(|l: Vec<Literal>| names(l@)) =~= Seq::<Seq<Seq<char>>>::empty());
                    assert(label_sets(w@) =~= label_sets(a@.take(0)).intersect(label_sets(b@)));
                }
                while i < a.len()
                    invariant
                        i <= a@.len(),
                        labels_wf(a@),
                        labels_wf(w@),
                        label_sets(w@) == label_sets(a@.take(i as int)).intersect(label_sets(b@)),
                    decreases a@.len() - i,
                {
                    let ghost before = label_sets(w@);
                    if label_contains(b, &a[i]) {
                        label_insert(&mut w, names_copy(&a[i]));
                    }
                    proof {
                        lemma_label_sets_take(a@, i as int);
                        assert(label_sets(w@) =~= label_sets(a@.take(i + 1)).intersect(label_sets(b@)));
                    }
                    i = i + 1;
                }
                proof {
                    assert(a@.take(i as int) =~= a@);
                }
                Neighbors::Just(w)
            },
            (Neighbors::Any, _) => other.copy(),
            (_, Neighbors::Any) => self.copy(),
        }
    }

    /// Whether the labels share no set.
    pub fn is_disjoint(&self, other: &Neighbors) -> (r: bool)
        requires
            self.wf(),
            other.wf(),
        ensures
            r == disjoint_of(self@, other@),
    {
        match (self, other) {
            (Neighbors::Just(a), Neighbors::Just(b)) => {
                let mut i: usize = 0;
                while i < a.len()
                    invariant
                        i <= a@.len(),
                        self@ == NeighborsV::Just(label_sets(a@)),
                        other@ == NeighborsV::Just(label_sets(b@)),
                        label_sets(a@.take(i as int)).disjoint(label_sets(b@)),
                    decreases a@.len() - i,
                {
                    proof {
                        lemma_label_sets_take(a@, i as int);
                    }
                    if label_contains(b, &a[i]) {
                        proof {
                            assert(a@.map_values(|l: Vec<Literal>| names(l@))[i as int] == names(a@[i as int]@));
                            assert(label_sets(a@).contains(names(a@[i as int]@)));
                            assert(label_sets(b@).contains(names(a@[i as int]@)));
                            assert(!label_sets(a@).disjoint(label_sets(b@)));
                        }
                        return false;
                    }
                    i = i + 1;
                }
                proof {
                    assert(a@.take(i as int) =~= a@);
                }
                true
            },
            _ => false,
        }
    }
}

/// A node of an automaton: its state and its transitions, each to a node
/// with a label.
pub struct BuchiNode<S> {
    pub id: S,
    pub adj: Vec<(NodeId, Neighbors)>,
}

/// The transitions of a node hold each target once, with a well-formed
/// label.
pub open spec fn adj_wf(v: Seq<(NodeId, Neighbors)>) -> bool {
    &&& forall|i: int| 0 <= i < v.len() ==> (#[trigger] v[i]).1.wf()
    &&& forall|i: int, j: int| 0 <= i < j < v.len() ==> (#[trigger] v[i]).0 != (#[trigger] v[j]).0
}

/// The transitions of a node, by target.
pub open spec fn adj_map(v: Seq<(NodeId, Neighbors)>) -> Map<u32, NeighborsV> {
    Map::new(
        |k: u32| exists|i: int| 0 <= i < v.len() && (#[trigger] v[i]).0.0 == k,
        |k: u32| v[choose|i: int| 0 <= i < v.len() && (#[trigger] v[i]).0.0 == k].1@,
    )
}

/// Sets the label of the transition to `to`, adding the transition where
/// there is none.
fn adj_insert(adj: &mut Vec<(NodeId, Neighbors)>, to: NodeId, labels: Neighbors)
    requires
        adj_wf(old(adj)@),
        labels.wf(),
    ensures
        adj_wf(final(adj)@),
        adj_map(final(adj)@) == adj_map(old(adj)@).insert(to.0, labels@),
{
    let ghost old_v = adj@;
    let mut i: usize = 0;
    while i < adj.len()
        invariant
            i <= adj@.len(),
            adj@ == old_v,
            old_v == old(adj)@,
            adj_wf(old_v),
            labels.wf(),
            forall|j: int| 0 <= j < i ==> (#[trigger] adj@[j]).0 != to,
        decreases adj@.len() - i,
    {
        if adj[i].0 == to {
            let ghost lv = labels@;
            adj.set(i, (to, labels));
            proof {
                let nv = adj@;
                assert(adj_wf(nv)) by {
                    assert forall|a: int, b: int| 0 <= a < b < nv.len() implies (#[trigger] nv[a]).0
                        != (#[trigger] nv[b]).0 by {
                        assert(old_v[a].0 != old_v[b].0);
                    }
                }
                assert(adj_map(nv) =~= adj_map(old_v).insert(to.0, lv)) by {
                    assert forall|k: u32| #[trigger] adj_map(nv).contains_key(k) == adj_map(old_v).insert(
                        to.0,
                        lv,
                    ).contains_key(k) by {
                        if adj_map(nv).contains_key(k) {
                            let t = choose|t: int| 0 <= t < nv.len() && (#[trigger] nv[t]).0.0 == k;
                            if t != i {
                                assert(old_v[t].0.0 == k);
                            }
                        }
                        if adj_map(old_v).contains_key(k) {
                            let t = choose|t: int| 0 <= t < old_v.len() && (#[trigger] old_v[t]).0.0
                                == k;
                            assert(nv[t].0.0 == k);
                        }
                        if k == to.0 {
                            assert(nv[i as int].0.0 == k);
                        }
                    }
                    assert forall|k: u32| #[trigger] adj_map(nv).contains_key(k) implies adj_map(nv)[k]
                        == adj_map(old_v).insert(to.0, lv)[k] by {
                        let t = choose|t: int| 0 <= t < nv.len() && (#[trigger] nv[t]).0.0 == k;
                        if k == to.0 {
                            assert(t == i) by {
                                if t != i {
                                    assert(nv[t].0 == nv[i as int].0);
                                }
                            }
                        } else {
                            let t2 = choose|t2: int| 0 <= t2 < old_v.len() && (#[trigger] old_v[t2]).0.0
                                == k;
                            assert(nv[t2].0.0 == k);
                            if t != t2 {
                                assert(old_v[t].0 == old_v[t2].0);
                            }
                        }
                    }
                }
            }
            assert(adj_map(adj@) == adj_map(old(adj)@).insert(to.0, lv));
            return;
        }
        i = i + 1;
    }
    let ghost lv = labels@;
    adj.push((to, labels));
    proof {
        let nv = adj@;
        assert(adj_wf(nv));
        assert(adj_map(nv) =~= adj_map(old_v).insert(to.0, lv)) by {
            assert forall|k: u32| #[trigger] adj_map(nv).contains_key(k) == adj_map(old_v).insert(
                to.0,
                lv,
            ).contains_key(k) by {
                if adj_map(nv).contains_key(k) {
                    let t = choose|t: int| 0 <= t < nv.len() && (#[trigger] nv[t]).0.0 == k;
                    if t < old_v.len() {
                        assert(old_v[t].0.0 == k);
                    }
                }
                if adj_map(old_v).contains_key(k) {
                    let t = choose|t: int| 0 <= t < old_v.len() && (#[trigger] old_v[t]).0.0 == k;
                    assert(nv[t].0.0 == k);
                }
                if k == to.0 {
                    assert(nv[old_v.len() as int].0.0 == k);
                }
            }
            assert forall|k: u32| #[trigger] adj_map(nv).contains_key(k) implies adj_map(nv)[k]
                == adj_map(old_v).insert(to.0, lv)[k] by {
                let t = choose|t: int| 0 <= t < nv.len() && (#[trigger] nv[t]).0.0 == k;
                if k == to.0 {
                    assert(t == old_v.len());
                } else {
                    let t2 = choose|t2: int| 0 <= t2 < old_v.len() && (#[trigger] old_v[t2]).0.0 == k;
                    assert(nv[t2].0.0 == k);
                    if t != t2 {
                        assert(nv[t].0 == nv[t2].0);
                    }
                }
            }
        }
    }
}

/// The indexes of a node set, which are kept in increasing order.
pub open spec fn id_seq(v: Seq<NodeId>) -> Seq<u32> {
    v.map_values(|n: NodeId| n.0)
}

/// The indexes increase strictly.
pub open spec fn ids_increasing(v: Seq<NodeId>) -> bool {
    forall|i: int, j: int| 0 <= i < j < v.len() ==> (#[trigger] v[i]).0 < (#[trigger] v[j]).0
}

/// The set of a node set.
pub open spec fn id_set(v: Seq<NodeId>) -> Set<u32> {
    id_seq(v).to_set()
}

/// Adds an index to a node set.
pub fn nodeset_insert(v: &mut Vec<NodeId>, id: NodeId)
    requires
        ids_increasing(old(v)@),
    ensures
        ids_increasing(final(v)@),
        id_set(final(v)@) == id_set(old(v)@).insert(id.0),
{
    let ghost old_v = v@;
    let mut i: usize = 0;
    while i < v.len() && v[i].0 < id.0
        invariant
            i <= v@.len(),
            v@ == old_v,
            ids_increasing(old_v),
            forall|j: int| 0 <= j < i ==> (#[trigger] old_v[j]).0 < id.0,
        decreases v@.len() - i,
    {
        i = i + 1;
    }
    if i < v.len() && v[i].0 == id.0 {
        proof {
            assert(id_seq(old_v)[i as int] == id.0);
            assert(id_seq(old_v).contains(id.0));
            assert(id_set(old_v).insert(id.0) =~= id_set(old_v));
        }
        return;
    }
    v.insert(i, id);
    proof {
        let nv = v@;
        assert(nv =~= old_v.insert(i as int, id));
        assert(ids_increasing(nv)) by {
            assert forall|a: int, b: int| 0 <= a < b < nv.len() implies (#[trigger] nv[a]).0 < (
            #[trigger] nv[b]).0 by {
                if a < i && b > i {
                    assert(nv[b] == old_v[b - 1]);
                    assert(old_v[i as int].0 >= id.0);
                    if b - 1 > i {
                        assert(old_v[i as int].0 < old_v[b - 1].0);
                    }
                } else if a == i {
                    assert(nv[b] == old_v[b - 1]);
                    if b - 1 > i {
                        assert(old_v[i as int].0 < old_v[b - 1].0);
                    }
                } else if a > i {
                    assert(nv[a] == old_v[a - 1]);
                    assert(nv[b] == old_v[b - 1]);
                }
            }
        }
        assert(id_set(nv) =~= id_set(old_v).insert(id.0)) by {
            assert forall|x: u32| id_set(nv).contains(x) implies id_set(old_v).insert(id.0).contains(x) by {
                let t = choose|t: int| 0 <= t < id_seq(nv).len() && id_seq(nv)[t] == x;
                if t < i {
                    assert(id_seq(old_v)[t] == x);
                } else if t > i {
                    assert(id_seq(old_v)[t - 1] == x);
                }
            }
            assert forall|x: u32| id_set(old_v).insert(id.0).contains(x) implies id_set(nv).contains(x) by {
                if x == id.0 {
                    assert(id_seq(nv)[i as int] == x);
                } else {
                    let t = choose|t: int| 0 <= t < id_seq(old_v).len() && id_seq(old_v)[t] == x;
                    if t < i {
                        assert(id_seq(nv)[t] == x);
                    } else {
                        assert(id_seq(nv)[t + 1] == x);
                    }
                }
            }
        }
    }
}

/// The first position of `s` in `ids`, or -1.
pub open spec fn first_state<S>(ids: Seq<S>, s: S) -> int {
    if exists|i: int| 0 <= i < ids.len() && ids[i] == s && forall|j: int| 0 <= j < i ==> ids[j] != s {
        choose|i: int| 0 <= i < ids.len() && ids[i] == s && forall|j: int| 0 <= j < i ==> ids[j] != s
    } else {
        -1
    }
}

pub proof fn lemma_first_state<S>(ids: Seq<S>, s: S, i: int)
    requires
        0 <= i < ids.len(),
        ids[i] == s,
        forall|j: int| 0 <= j < i ==> ids[j] != s,
    ensures
        first_state(ids, s) == i,
{
    let k = choose|k: int| 0 <= k < ids.len() && ids[k] == s && forall|j: int| 0 <= j < k ==> ids[j] != s;
    if k < i {
        assert(ids[k] != s);
    }
    if i < k {
        assert(ids[i] != s);
    }
}

/// Where the states are distinct, a state held at position `k` is first
/// found there.
pub proof fn lemma_first_state_found<S>(ids: Seq<S>, s: S, k: int)
    requires
        ids.no_duplicates(),
        0 <= k < ids.len(),
        ids[k] == s,
    ensures
        first_state(ids, s) == k,
{
    lemma_first_state(ids, s, k);
}

/// The first position of a state is `-1` or a position that holds it.
pub proof fn lemma_first_state_range<S>(ids: Seq<S>, s: S)
    ensures
        first_state(ids, s) >= -1,
        first_state(ids, s) >= 0 ==> first_state(ids, s) < ids.len() && ids[first_state(ids, s)] == s,
{
}

/// Where the states are distinct and `s` is not found, `s` is not held.
pub proof fn lemma_first_state_absent<S>(ids: Seq<S>, s: S)
    requires
        ids.no_duplicates(),
        first_state(ids, s) == -1,
    ensures
        !ids.contains(s),
{
    if ids.contains(s) {
        let k = choose|k: int| 0 <= k < ids.len() && ids[k] == s;
        lemma_first_state_found(ids, s, k);
    }
}

/// Adding a state that is not held keeps the states distinct.
pub proof fn lemma_push_fresh<S>(ids: Seq<S>, s: S)
    requires
        ids.no_duplicates(),
        !ids.contains(s),
    ensures
        ids.push(s).no_duplicates(),
{
    let ids2 = ids.push(s);
    assert forall|i: int, j: int| 0 <= i < ids2.len() && 0 <= j < ids2.len() && i != j implies ids2[i]
        != ids2[j] by {
        if i == ids.len() as int {
            assert(ids.contains(ids2[j]));
        } else if j == ids.len() as int {
            assert(ids.contains(ids2[i]));
        }
    }
}

/// The abstract value of a generalized Büchi automaton: its alphabet, the
/// state of each node, the transitions of each node by target, its sets of
/// accepting nodes, and its initial nodes.
pub struct GbaV<S> {
    pub alphabet: Seq<Seq<char>>,
    pub ids: Seq<S>,
    pub adj: Seq<Map<u32, NeighborsV>>,
    pub accepting: Seq<Set<u32>>,
    pub init: Set<u32>,
}

/// The automaton with the node of state `s`: the node that has it, or a new
/// node without transitions.
pub open spec fn gba_push<S>(g: GbaV<S>, s: S) -> (GbaV<S>, u32) {
    let i = first_state(g.ids, s);
    if i >= 0 {
        (g, i as u32)
    } else {
        (
            GbaV {
                alphabet: g.alphabet,
                ids: g.ids.push(s),
                adj: g.adj.push(Map::empty()),
                accepting: g.accepting,
                init: g.init,
            },
            g.ids.len() as u32,
        )
    }
}

/// A generalized Büchi automaton: its acceptance condition is a list of
/// sets of nodes, each of which a run must visit infinitely often.
pub struct GeneralBuchi<S> {
    pub alphabet: Alphabet,
    pub nodes: NodeArena<BuchiNode<S>>,
    pub accepting_states: Vec<Vec<NodeId>>,
    pub init_states: Vec<NodeId>,
}

impl<S: View> View for GeneralBuchi<S> {
    type V = GbaV<S::V>;

    open spec fn view(&self) -> GbaV<S::V> {
        GbaV {
            alphabet: names(self.alphabet.symbols@),
            ids: self.nodes.nodes@.map_values(|n: BuchiNode<S>| n.id@),
            adj: self.nodes.nodes@.map_values(|n: BuchiNode<S>| adj_map(n.adj@)),
            accepting: self.accepting_states@.map_values(|v: Vec<NodeId>| id_set(v@)),
            init: id_set(self.init_states@),
        }
    }
}

impl<S: State> GeneralBuchi<S> {
    /// The automaton is well formed: its alphabet and node sets are sorted
    /// and its transitions well formed.
    pub open spec fn wf(&self) -> bool {
        &&& self.alphabet.wf()
        &&& self.nodes.nodes@.len() < u32::MAX
        &&& forall|i: int| 0 <= i < self.nodes.nodes@.len() ==> adj_wf(#[trigger] self.nodes.nodes@[i].adj@)
        &&& forall|i: int|
            0 <= i < self.accepting_states@.len() ==> ids_increasing(#[trigger] self.accepting_states@[i]@)
        &&& ids_increasing(self.init_states@)
        &&& self@.ids.no_duplicates()
    }

    /// The automaton over `alphabet` with no node.
    pub fn new(alphabet: Alphabet) -> (r: Self)
        requires
            alphabet.wf(),
        ensures
            r.wf(),
            r@.alphabet == names(alphabet.symbols@),
            r@.ids.len() == 0,
            r@.adj.len() == 0,
            r@.accepting.len() == 0,
            r@.init == Set::<u32>::empty(),
    {
        let r = GeneralBuchi {
            alphabet,
            nodes: NodeArena::new(),
            accepting_states: Vec::new(),
            init_states: Vec::new(),
        };
        proof {
            assert(id_seq(r.init_states@) =~= Seq::<u32>::empty());
            assert(r@.init =~= Set::<u32>::empty());
        }
        r
    }

    /// The node whose state is `name`, where there is one.
    pub fn get_node(&self, name: &S) -> (r: Option<NodeId>)
        requires
            self.wf(),
        ensures
            match r {
                Some(id) => first_state(self@.ids, name@) == id.0 as int,
                None => first_state(self@.ids, name@) == -1,
            },
    {
        let mut i: usize = 0;
        while i < self.nodes.nodes.len()
            invariant
                i <= self.nodes.nodes@.len(),
                self.wf(),
                forall|j: int| 0 <= j < i ==> self@.ids[j] != name@,
            decreases self.nodes.nodes@.len() - i,
        {
            if self.nodes.nodes[i].id.same(name) {
                proof {
                    lemma_first_state(self@.ids, name@, i as int);
                }
                return Some(NodeId(i as u32));
            }
            i = i + 1;
        }
        None
    }

    /// The state of a node.
    pub fn id(&self, node_id: NodeId) -> (r: &S)
        requires
            node_id.0 < self@.ids.len(),
        ensures
            r@ == self@.ids[node_id.0 as int],
    {
        &self.nodes.nodes[node_id.0 as usize].id
    }

    /// The node of a state: the node that has it, or a new one.
    pub fn push(&mut self, state: S) -> (r: NodeId)
        requires
            old(self).wf(),
            old(self)@.ids.len() + 1 < u32::MAX,
        ensures
            final(self).wf(),
            (final(self)@, r.0) == gba_push(old(self)@, state@),
    {
        match self.get_node(&state) {
            Some(id) => id,
            None => {
                let ghost before = self@;
                proof {
                    lemma_first_state_absent(before.ids, state@);
                }
                let id = self.nodes.push(BuchiNode { id: state, adj: Vec::new() });
                proof {
                    assert(adj_map(Seq::<(NodeId, Neighbors)>::empty()) =~= Map::empty());
                    assert(self@.ids =~= before.ids.push(state@));
                    assert(self@.adj =~= before.adj.push(Map::empty()));
                    lemma_push_fresh(before.ids, state@);
                }
                id
            },
        }
    }

    /// Adds a set of accepting nodes.
    pub fn add_accepting_state(&mut self, ids: &Vec<NodeId>)
        requires
            old(self).wf(),
            ids_increasing(ids@),
        ensures
            final(self).wf(),
            final(self)@ == (GbaV { accepting: old(self)@.accepting.push(id_set(ids@)), ..old(self)@ }),
    {
        let ghost before = self@;
        let mut copy: Vec<NodeId> = Vec::new();
        let mut i: usize = 0;
        while i < ids.len()
            invariant
                i <= ids@.len(),
                copy@ == ids@.take(i as int),
            decreases ids@.len() - i,
        {
            copy.push(ids[i]);
            proof {
                assert(ids@.take(i + 1) =~= ids@.take(i as int).push(ids@[i as int]));
            }
            i = i + 1;
        }
        proof {
            assert(ids@.take(i as int) =~= ids@);
        }
        self.accepting_states.push(copy);
        proof {
            assert(self@.accepting =~= before.accepting.push(id_set(ids@)));
        }
    }

    /// Marks a node as initial.
    pub fn add_init_state(&mut self, node_id: NodeId)
        requires
            old(self).wf(),
        ensures
            final(self).wf(),
            final(self)@ == (GbaV { init: old(self)@.init.insert(node_id.0), ..old(self)@ }),
    {
        nodeset_insert(&mut self.init_states, node_id);
    }

    /// Sets the label of the transition from `from` to `to`.
    pub fn add_transition(&mut self, from: NodeId, to: NodeId, labels: Neighbors)
        requires
            old(self).wf(),
            from.0 < old(self)@.ids.len(),
            labels.wf(),
        ensures
            final(self).wf(),
            final(self)@ == (GbaV {
                adj: old(self)@.adj.update(from.0 as int, old(self)@.adj[from.0 as int].insert(to.0, labels@)),
                ..old(self)@
            }),
    {
        let ghost before = self@;
        let f = from.0 as usize;
        let mut node = self.nodes.nodes.remove(f);
        adj_insert(&mut node.adj, to, labels);
        self.nodes.nodes.insert(f, node);
        proof {
            assert(self@.ids =~= before.ids);
            assert(self@.adj =~= before.adj.update(f as int, before.adj[f as int].insert(to.0, labels@)));
        }
    }
}

/// The abstract value of a Büchi automaton: its alphabet, the state of each
/// node, the transitions of each node by target, its accepting nodes and its
/// initial nodes.
pub struct BaV<S> {
    pub alphabet: Seq<Seq<char>>,
    pub ids: Seq<S>,
    pub adj: Seq<Map<u32, NeighborsV>>,
    pub accepting: Set<u32>,
    pub init: Set<u32>,
}

/// The automaton with the node of state `s`: the node that has it, or a new
/// node without transitions.
pub open spec fn ba_push<S>(g: BaV<S>, s: S) -> (BaV<S>, u32) {
    let i = first_state(g.ids, s);
    if i >= 0 {
        (g, i as u32)
    } else {
        (BaV { ids: g.ids.push(s), adj: g.adj.push(Map::empty()), ..g }, g.ids.len() as u32)
    }
}

/// A Büchi automaton: a run is accepted where it visits an accepting node
/// infinitely often.
pub struct Buchi<S> {
    pub alphabet: Alphabet,
    pub nodes: NodeArena<BuchiNode<S>>,
    pub accepting_states: Vec<NodeId>,
    pub init_states: Vec<NodeId>,
}

impl<S: View> View for Buchi<S> {
    type V = BaV<S::V>;

    open spec fn view(&self) -> BaV<S::V> {
        BaV {
            alphabet: names(self.alphabet.symbols@),
            ids: self.nodes.nodes@.map_values(|n: BuchiNode<S>| n.id@),
            adj: self.nodes.nodes@.map_values(|n: BuchiNode<S>| adj_map(n.adj@)),
            accepting: id_set(self.accepting_states@),
            init: id_set(self.init_states@),
        }
    }
}

impl<S: State> Buchi<S> {
    /// The automaton is well formed: its alphabet and node sets are sorted,
    /// its transitions well formed and its states distinct.
    pub open spec fn wf(&self) -> bool {
        &&& self.alphabet.wf()
        &&& self.nodes.nodes@.len() < u32::MAX
        &&& forall|i: int| 0 <= i < self.nodes.nodes@.len() ==> adj_wf(#[trigger] self.nodes.nodes@[i].adj@)
        &&& ids_increasing(self.accepting_states@)
        &&& ids_increasing(self.init_states@)
        &&& self@.ids.no_duplicates()
    }

    /// The automaton over `alphabet` with no node.
    pub fn new(alphabet: Alphabet) -> (r: Self)
        requires
            alphabet.wf(),
        ensures
            r.wf(),
            r@.alphabet == names(alphabet.symbols@),
            r@.ids.len() == 0,
            r@.adj.len() == 0,
            r@.accepting == Set::<u32>::empty(),
            r@.init == Set::<u32>::empty(),
    {
        let r = Buchi {
            alphabet,
            nodes: NodeArena::new(),
            accepting_states: Vec::new(),
            init_states: Vec::new(),
        };
        proof {
            assert(id_seq(r.init_states@) =~= Seq::<u32>::empty());
            assert(r@.init =~= Set::<u32>::empty());
            assert(id_seq(r.accepting_states@) =~= Seq::<u32>::empty());
            assert(r@.accepting =~= Set::<u32>::empty());
        }
        r
    }

    /// The node whose state is `name`, where there is one.
    pub fn get_node(&self, name: &S) -> (r: Option<NodeId>)
        requires
            self.wf(),
        ensures
            match r {
                Some(id) => first_state(self@.ids, name@) == id.0 as int,
                None => first_state(self@.ids, name@) == -1,
            },
    {
        let mut i: usize = 0;
        while i < self.nodes.nodes.len()
            invariant
                i <= self.nodes.nodes@.len(),
                self.wf(),
                forall|j: int| 0 <= j < i ==> self@.ids[j] != name@,
            decreases self.nodes.nodes@.len() - i,
        {
            if self.nodes.nodes[i].id.same(name) {
                proof {
                    lemma_first_state(self@.ids, name@, i as int);
                }
                return Some(NodeId(i as u32));
            }
            i = i + 1;
        }
        None
    }

    /// The state of a node.
    pub fn id(&self, node_id: NodeId) -> (r: &S)
        requires
            node_id.0 < self@.ids.len(),
        ensures
            r@ == self@.ids[node_id.0 as int],
    {
        &self.nodes.nodes[node_id.0 as usize].id
    }

    /// The node of a state: the node that has it, or a new one.
    pub fn push(&mut self, state: S) -> (r: NodeId)
        requires
            old(self).wf(),
            old(self)@.ids.len() + 1 < u32::MAX,
        ensures
            final(self).wf(),
            (final(self)@, r.0) == ba_push(old(self)@, state@),
    {
        match self.get_node(&state) {
            Some(id) => id,
            None => {
                let ghost before = self@;
                proof {
                    lemma_first_state_absent(before.ids, state@);
                }
                let id = self.nodes.push(BuchiNode { id: state, adj: Vec::new() });
                proof {
                    assert(adj_map(Seq::<(NodeId, Neighbors)>::empty()) =~= Map::empty());
                    assert(self@.ids =~= before.ids.push(state@));
                    assert(self@.adj =~= before.adj.push(Map::empty()));
                    lemma_push_fresh(before.ids, state@);
                }
                id
            },
        }
    }

    /// Marks a node as accepting.
    pub fn add_accepting_state(&mut self, node_id: NodeId)
        requires
            old(self).wf(),
        ensures
            final(self).wf(),
            final(self)@ == (BaV { accepting: old(self)@.accepting.insert(node_id.0), ..old(self)@ }),
    {
        nodeset_insert(&mut self.accepting_states, node_id);
    }

    /// Marks a node as initial.
    pub fn add_init_state(&mut self, node_id: NodeId)
        requires
            old(self).wf(),
        ensures
            final(self).wf(),
            final(self)@ == (BaV { init: old(self)@.init.insert(node_id.0), ..old(self)@ }),
    {
        nodeset_insert(&mut self.init_states, node_id);
    }

    /// Sets the label of the transition from `from` to `to`.
    pub fn add_transition(&mut self, from: NodeId, to: NodeId, labels: Neighbors)
        requires
            old(self).wf(),
            from.0 < old(self)@.ids.len(),
            labels.wf(),
        ensures
            final(self).wf(),
            final(self)@ == (BaV {
                adj: old(self)@.adj.update(from.0 as int, old(self)@.adj[from.0 as int].insert(to.0, labels@)),
                ..old(self)@
            }),
    {
        let ghost before = self@;
        let f = from.0 as usize;
        let mut node = self.nodes.nodes.remove(f);
        adj_insert(&mut node.adj, to, labels);
        self.nodes.nodes.insert(f, node);
        proof {
            assert(self@.ids =~= before.ids);
            assert(self@.adj =~= before.adj.update(f as int, before.adj[f as int].insert(to.0, labels@)));
        }
    }
}

} // verus!
