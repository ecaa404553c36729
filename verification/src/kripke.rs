//! Kripke structures: worlds labelled with the propositions that hold in
//! them, related by a transition relation, and their Büchi automaton.
use vstd::prelude::*;

use crate::buchi::{
    ba_push, first_state, lemma_first_state, lemma_first_state_range, Alphabet, BaV, Buchi, Neighbors,
    NeighborsV, NodeArena, NodeId, State,
};
use crate::names::lemma_sorted_names;
use crate::ltl::expression::Literal;
use crate::names::{name_insert, name_set, names, names_copy, names_sorted, sorted_names};

verus! {

/// A world: its state and the propositions that hold in it, sorted.
pub struct KripkeNode<S> {
    pub id: S,
    pub assignment: Vec<Literal>,
}

/// A Kripke structure: its worlds, its initial worlds and its relation.
pub struct KripkeStructure<S> {
    pub nodes: NodeArena<KripkeNode<S>>,
    pub inits: Vec<NodeId>,
    pub relations: Vec<(NodeId, NodeId)>,
}

/// The abstract value of a Kripke structure: the state and the propositions
/// of each world, the initial worlds in order and the pairs of the relation
/// in order.
pub struct KripkeV<V> {
    pub ids: Seq<V>,
    pub labels: Seq<Set<Seq<char>>>,
    pub inits: Seq<u32>,
    pub relations: Seq<(u32, u32)>,
}

/// The items of a Kripke structure's text: its initial worlds, a world, or
/// a world and the worlds it relates to.
pub enum Expr<S> {
    Init(Vec<S>),
    World(KripkeNode<S>),
    Relation(S, Vec<S>),
}

impl<S: View> View for KripkeStructure<S> {
    type V = KripkeV<S::V>;

    open spec fn view(&self) -> KripkeV<S::V> {
        KripkeV {
            ids: self.nodes.nodes@.map_values(|n: KripkeNode<S>| n.id@),
            labels: self.nodes.nodes@.map_values(|n: KripkeNode<S>| name_set(n.assignment@)),
            inits: self.inits@.map_values(|i: NodeId| i.0),
            relations: self.relations@.map_values(|p: (NodeId, NodeId)| (p.0.0, p.1.0)),
        }
    }
}

/// The label of a single set of propositions.
pub open spec fn single_label(s: Set<Seq<char>>) -> NeighborsV {
    NeighborsV::Just(set![sorted_names(s)])
}

/// The automaton after the pair `(src, dst)` of the relation: a transition
/// from the node of `src` to the node of `dst`, labelled by what holds in
/// `dst`, both nodes accepting.
pub open spec fn relation_step<V>(g: BaV<V>, k: KripkeV<V>, p: (u32, u32)) -> BaV<V> {
    let (g1, node) = ba_push(g, k.ids[p.0 as int]);
    let (g2, target) = ba_push(g1, k.ids[p.1 as int]);
    BaV {
        adj: g2.adj.update(node as int, g2.adj[node as int].insert(target, single_label(k.labels[p.1 as int]))),
        accepting: g2.accepting.insert(node).insert(target),
        ..g2
    }
}

/// The automaton after the first `n` pairs of the relation.
pub open spec fn fold_relations<V>(g: BaV<V>, k: KripkeV<V>, n: nat) -> BaV<V>
    decreases n,
{
    if n == 0 {
        g
    } else {
        relation_step(fold_relations(g, k, (n - 1) as nat), k, k.relations[n - 1])
    }
}

/// The automaton after the initial world `w`: a transition from the
/// initial node `init` to the node of `w`, labelled by what holds in `w`,
/// the node of `w` accepting.
pub open spec fn init_step<V>(g: BaV<V>, k: KripkeV<V>, init: u32, w: u32) -> BaV<V> {
    let (g1, target) = ba_push(g, k.ids[w as int]);
    BaV {
        adj: g1.adj.update(init as int, g1.adj[init as int].insert(target, single_label(k.labels[w as int]))),
        accepting: g1.accepting.insert(target),
        ..g1
    }
}

/// The automaton after the first `n` initial worlds.
pub open spec fn fold_inits<V>(g: BaV<V>, k: KripkeV<V>, init: u32, n: nat) -> BaV<V>
    decreases n,
{
    if n == 0 {
        g
    } else {
        init_step(fold_inits(g, k, init, (n - 1) as nat), k, init, k.inits[n - 1])
    }
}

/// The Büchi automaton of the structure over `alphabet`, with `initial` the
/// state of the initial node: the relation's transitions, then a node for
/// the initial state with a transition to each initial world; every node
/// it names is accepting, and the initial node is the one initial node.
pub open spec fn kripke_buchi<V>(k: KripkeV<V>, alphabet: Seq<Seq<char>>, initial: V) -> BaV<V> {
    let g0 = BaV {
        alphabet,
        ids: Seq::empty(),
        adj: Seq::empty(),
        accepting: Set::empty(),
        init: Set::empty(),
    };
    let g1 = fold_relations(g0, k, k.relations.len());
    let (g2, init) = ba_push(g1, initial);
    let g3 = fold_inits(g2, k, init, k.inits.len());
    BaV { init: g3.init.insert(init), accepting: g3.accepting.insert(init), ..g3 }
}

/// The propositions of all worlds.
pub open spec fn kripke_names<V>(k: KripkeV<V>) -> Set<Seq<char>> {
    Set::new(|s: Seq<char>| exists|i: int| 0 <= i < k.labels.len() && #[trigger] k.labels[i].contains(s))
}

/// The names of the alphabet of the automaton: those of the worlds, and of
/// the alphabet given, where one is.
pub open spec fn kripke_alphabet<V>(k: KripkeV<V>, extra: Option<&Alphabet>) -> Set<Seq<char>> {
    match extra {
        Some(a) => kripke_names(k) + name_set(a.symbols@),
        None => kripke_names(k),
    }
}

impl<S: State> KripkeStructure<S> {
    /// The structure is well formed: each world's propositions are sorted,
    /// and its initial worlds and relation name worlds.
    pub open spec fn wf(&self) -> bool {
        &&& forall|i: int|
            0 <= i < self.nodes.nodes@.len() ==> names_sorted(names((#[trigger] self.nodes.nodes@[i]).assignment@))
        &&& forall|i: int| 0 <= i < self.inits@.len() ==> (#[trigger] self.inits@[i]).0 < self.nodes.nodes@.len()
        &&& self.nodes.nodes@.len() < u32::MAX
    }

    /// Every pair of the relation names worlds.
    pub open spec fn relations_valid(&self) -> bool {
        forall|i: int|
            0 <= i < self.relations@.len() ==> (#[trigger] self.relations@[i]).0.0 < self.nodes.nodes@.len()
                && self.relations@[i].1.0 < self.nodes.nodes@.len()
    }

    /// The structure whose worlds are the initial ones given, in order, with
    /// no proposition and no relation.
    pub fn new(inits: Vec<S>) -> (r: Self)
        requires
            inits@.len() < u32::MAX,
        ensures
            r.wf(),
            r@.ids == inits@.map_values(|s: S| s@),
            r@.labels == Seq::new(inits@.len(), |i: int| Set::<Seq<char>>::empty()),
            r@.inits == Seq::new(inits@.len(), |i: int| i as u32),
            r@.relations == Seq::<(u32, u32)>::empty(),
    {
        let mut worlds: NodeArena<KripkeNode<S>> = NodeArena::new();
        let mut new_inits: Vec<NodeId> = Vec::new();
        let ghost all = inits@;
        let mut i: usize = 0;
        while i < inits.len()
            invariant
                i <= all.len(),
                all == inits@,
                all.len() < u32::MAX,
                worlds.nodes@.len() == i,
                new_inits@.len() == i,
                forall|t: int|
                    0 <= t < worlds.nodes@.len() ==> (#[trigger] worlds.nodes@[t]).id@ == all[t]@
                        && worlds.nodes@[t].assignment@.len() == 0,
                forall|t: int| 0 <= t < new_inits@.len() ==> (#[trigger] new_inits@[t]).0 == t,
            decreases all.len() - i,
        {
            let id = worlds.push(KripkeNode { id: inits[i].duplicate(), assignment: Vec::new() });
            new_inits.push(id);
            i = i + 1;
        }
        let r = KripkeStructure { nodes: worlds, inits: new_inits, relations: Vec::new() };
        proof {
            assert(r@.ids =~= all.map_values(|s: S| s@));
            assert forall|i: int| 0 <= i < r.nodes.nodes@.len() implies names_sorted(
                names((#[trigger] r.nodes.nodes@[i]).assignment@),
            ) by {
                assert(names(r.nodes.nodes@[i].assignment@) =~= Seq::<Seq<char>>::empty());
            }
            assert(r@.labels =~= Seq::new(all.len(), |i: int| Set::<Seq<char>>::empty())) by {
                assert forall|i: int| 0 <= i < all.len() implies r@.labels[i] =~= Set::<Seq<char>>::empty() by {
                    assert(names(r.nodes.nodes@[i].assignment@) =~= Seq::<Seq<char>>::empty());
                }
            }
            assert(r@.inits =~= Seq::new(all.len(), |i: int| i as u32));
            assert(r@.relations =~= Seq::<(u32, u32)>::empty());
        }
        r
    }

    /// The world whose state is `s`, where there is one.
    pub fn find_world(&self, s: &S) -> (r: Option<NodeId>)
        requires
            self.wf(),
        ensures
            match r {
                Some(id) => first_state(self@.ids, s@) == id.0 as int,
                None => first_state(self@.ids, s@) == -1,
            },
    {
        let mut i: usize = 0;
        while i < self.nodes.nodes.len()
            invariant
                i <= self.nodes.nodes@.len(),
                self.wf(),
                forall|j: int| 0 <= j < i ==> self@.ids[j] != s@,
            decreases self.nodes.nodes@.len() - i,
        {
            if self.nodes.nodes[i].id.same(s) {
                proof {
                    lemma_first_state(self@.ids, s@, i as int);
                }
                return Some(NodeId(i as u32));
            }
            i = i + 1;
        }
        None
    }

    /// Adds a world with the propositions `assignment`; where a world of
    /// that state exists, its propositions gain those given.
    pub fn add_node(&mut self, w: S, assignment: Vec<Literal>) -> (r: NodeId)
        requires
            old(self).wf(),
            old(self).nodes.nodes@.len() + 1 < u32::MAX,
        ensures
            final(self).wf(),
            first_state(old(self)@.ids, w@) >= 0 ==> r.0 == first_state(old(self)@.ids, w@) && final(self)@
                == (KripkeV {
                labels: old(self)@.labels.update(
                    r.0 as int,
                    old(self)@.labels[r.0 as int] + names(assignment@).to_set(),
                ),
                ..old(self)@
            }),
            first_state(old(self)@.ids, w@) < 0 ==> r.0 == old(self)@.ids.len() && final(self)@ == (KripkeV {
                ids: old(self)@.ids.push(w@),
                labels: old(self)@.labels.push(names(assignment@).to_set()),
                ..old(self)@
            }),
    {
        let ghost before = self@;
        match self.find_world(&w) {
            Some(id) => {
                let k = id.0 as usize;
                proof {
                    assert(k < self.nodes.nodes@.len()) by {
                        let j = choose|j: int|
                            0 <= j < before.ids.len() && before.ids[j] == w@ && forall|t: int|
                                0 <= t < j ==> before.ids[t] != w@;
                    }
                }
                let ghost old_nodes = self.nodes.nodes@;
                let mut node = self.nodes.nodes.remove(k);
                let ghost id0 = node.id;
                let mut i: usize = 0;
                let ghost start = name_set(node.assignment@);
                proof {
                    assert(names(assignment@.take(0)).to_set() =~= Set::<Seq<char>>::empty());
                    assert(start + names(assignment@.take(0)).to_set() =~= start);
                }
                while i < assignment.len()
                    invariant
                        i <= assignment@.len(),
                        node.id == id0,
                        names_sorted(names(node.assignment@)),
                        name_set(node.assignment@) == start + names(assignment@.take(i as int)).to_set(),
                    decreases assignment@.len() - i,
                {
                    name_insert(&mut node.assignment, assignment[i].clone());
                    proof {
                        assert(names(assignment@.take(i + 1)) =~= names(assignment@.take(i as int)).push(
                            assignment@[i as int]@,
                        ));
                        names(assignment@.take(i as int)).lemma_push_to_set_commute(assignment@[i as int]@);
                        assert(name_set(node.assignment@) =~= start + names(assignment@.take(i + 1)).to_set());
                    }
                    i = i + 1;
                }
                proof {
                    assert(assignment@.take(i as int) =~= assignment@);
                }
                self.nodes.nodes.insert(k, node);
                proof {
                    assert(self.nodes.nodes@ =~= old_nodes.update(k as int, self.nodes.nodes@[k as int]));
                    assert(self@.ids =~= before.ids);
                    assert(self@.labels =~= before.labels.update(k as int, before.labels[k as int] + names(assignment@).to_set()));
                    assert(self@.inits =~= before.inits);
                    assert(self@.relations =~= before.relations);
                }
                id
            },
            None => {
                let mut set: Vec<Literal> = Vec::new();
                let mut i: usize = 0;
                proof {
                    assert(names(set@).to_set() =~= names(assignment@.take(0)).to_set());
                }
                while i < assignment.len()
                    invariant
                        i <= assignment@.len(),
                        names_sorted(names(set@)),
                        name_set(set@) == names(assignment@.take(i as int)).to_set(),
                    decreases assignment@.len() - i,
                {
                    name_insert(&mut set, assignment[i].clone());
                    proof {
                        assert(names(assignment@.take(i + 1)) =~= names(assignment@.take(i as int)).push(
                            assignment@[i as int]@,
                        ));
                        names(assignment@.take(i as int)).lemma_push_to_set_commute(assignment@[i as int]@);
                    }
                    i = i + 1;
                }
                proof {
                    assert(assignment@.take(i as int) =~= assignment@);
                }
                let id = self.nodes.push(KripkeNode { id: w, assignment: set });
                proof {
                    assert(self@.ids =~= before.ids.push(w@));
                    assert(self@.labels =~= before.labels.push(names(assignment@).to_set()));
                    assert(self@.inits =~= before.inits);
                    assert(self@.relations =~= before.relations);
                }
                id
            },
        }
    }

    /// Adds the pair `(w1, w2)` to the relation.
    pub fn add_relation(&mut self, w1: NodeId, w2: NodeId)
        requires
            old(self).wf(),
        ensures
            final(self).wf(),
            final(self)@ == (KripkeV { relations: old(self)@.relations.push((w1.0, w2.0)), ..old(self)@ }),
    {
        let ghost before = self@;
        self.relations.push((w1, w2));
        proof {
            assert(self@.relations =~= before.relations.push((w1.0, w2.0)));
        }
    }

    /// The alphabet of the structure: the propositions of its worlds.
    pub fn alphabet(&self) -> (r: Alphabet)
        ensures
            r.wf(),
            name_set(r.symbols@) == kripke_names(self@),
    {
        let mut symbols: Vec<Literal> = Vec::new();
        let mut i: usize = 0;
        proof {
            assert(name_set(symbols@) =~= Set::<Seq<char>>::empty());
        }
        while i < self.nodes.nodes.len()
            invariant
                i <= self.nodes.nodes@.len(),
                names_sorted(names(symbols@)),
                forall|s: Seq<char>| #[trigger] name_set(symbols@).contains(s) <==> exists|t: int|
                    0 <= t < i && #[trigger] self@.labels[t].contains(s),
            decreases self.nodes.nodes@.len() - i,
        {
            let a = &self.nodes.nodes[i].assignment;
            let ghost before = name_set(symbols@);
            let mut j: usize = 0;
            while j < a.len()
                invariant
                    j <= a@.len(),
                    names_sorted(names(symbols@)),
                    name_set(symbols@) == before + names(a@.take(j as int)).to_set(),
                decreases a@.len() - j,
            {
                name_insert(&mut symbols, a[j].clone());
                proof {
                    assert(names(a@.take(j + 1)) =~= names(a@.take(j as int)).push(a@[j as int]@));
                    names(a@.take(j as int)).lemma_push_to_set_commute(a@[j as int]@);
                    assert(name_set(symbols@) =~= before + names(a@.take(j + 1)).to_set());
                }
                j = j + 1;
            }
            proof {
                assert(a@.take(j as int) =~= a@);
                assert(self@.labels[i as int] == name_set(a@));
                assert forall|s: Seq<char>| #[trigger] name_set(symbols@).contains(s) <==> exists|t: int|
                    0 <= t < i + 1 && #[trigger] self@.labels[t].contains(s) by {
                    if name_set(symbols@).contains(s) && !before.contains(s) {
                        assert(self@.labels[i as int].contains(s));
                    }
                    if exists|t: int| 0 <= t < i + 1 && #[trigger] self@.labels[t].contains(s) {
                        let t = choose|t: int| 0 <= t < i + 1 && #[trigger] self@.labels[t].contains(s);
                        if t < i {
                            assert(before.contains(s));
                        }
                    }
                }
            }
            i = i + 1;
        }
        proof {
            assert(name_set(symbols@) =~= kripke_names(self@));
        }
        Alphabet { symbols }
    }

    /// The Büchi automaton of the structure, over its alphabet and the
    /// alphabet given: a node per world of the relation and per initial
    /// world, all accepting, and an initial node with a transition to each
    /// initial world; each transition is labelled by what holds in its
    /// target.
    pub fn to_buchi(&self, alphabet: Option<&Alphabet>) -> (r: Buchi<S>)
        requires
            self.wf(),
            self.relations_valid(),
            2 * self.relations@.len() + self.inits@.len() + 2 < u32::MAX,
        ensures
            r.wf(),
            r@ == kripke_buchi(self@, sorted_names(kripke_alphabet(self@, alphabet)), S::initial_state()),
            labels_target(r@, self@),
            forall|t: int| 0 <= t < r@.ids.len() ==> #[trigger] r@.accepting.contains(t as u32),
    {
        proof {
            let k = self@;
            assert forall|i: int| 0 <= i < k.relations.len() implies (#[trigger] k.relations[i]).1 < k.ids.len() by {
                assert(self.relations@[i].1.0 < self.nodes.nodes@.len());
            }
            assert forall|i: int| 0 <= i < k.inits.len() implies (#[trigger] k.inits[i]) < k.ids.len() by {
                assert(self.inits@[i].0 < self.nodes.nodes@.len());
            }
            lemma_kripke_labels(k, sorted_names(kripke_alphabet(self@, alphabet)), S::initial_state());
            lemma_kripke_accepting(k, sorted_names(kripke_alphabet(self@, alphabet)), S::initial_state());
        }
        let ghost k = self@;
        let base = self.alphabet();
        let a = match alphabet {
            Some(x) => base.union(x),
            None => base,
        };
        let ghost a_names = names(a.symbols@);
        proof {
            lemma_sorted_names(a_names);
            assert(a_names.to_set() == kripke_alphabet(k, alphabet));
        }
        let mut buchi: Buchi<S> = Buchi::new(a);
        let ghost g0 = buchi@;
        proof {
            assert(g0.ids =~= Seq::<S::V>::empty());
            assert(g0.adj =~= Seq::<Map<u32, NeighborsV>>::empty());
            assert(g0 == (BaV::<S::V> {
                alphabet: a_names,
                ids: Seq::empty(),
                adj: Seq::empty(),
                accepting: Set::empty(),
                init: Set::empty(),
            }));
        }
        let mut i: usize = 0;
        while i < self.relations.len()
            invariant
                i <= self.relations@.len(),
                k == self@,
                self.wf(),
                self.relations_valid(),
                2 * self.relations@.len() + self.inits@.len() + 2 < u32::MAX,
                buchi.wf(),
                buchi@.ids.len() <= 2 * i,
                buchi@ == fold_relations(g0, k, i as nat),
            decreases self.relations@.len() - i,
        {
            let (src, dst) = self.relations[i];
            proof {
                assert(k.relations[i as int] == (src.0, dst.0));
                assert(k.ids[src.0 as int] == self.nodes.nodes@[src.0 as int].id@);
                assert(k.ids[dst.0 as int] == self.nodes.nodes@[dst.0 as int].id@);
                lemma_first_state_range(buchi@.ids, k.ids[src.0 as int]);
            }
            let node = buchi.push(self.nodes.nodes[src.0 as usize].id.duplicate());
            proof {
                lemma_first_state_range(buchi@.ids, k.ids[dst.0 as int]);
            }
            let target = buchi.push(self.nodes.nodes[dst.0 as usize].id.duplicate());
            let labels = Neighbors::from_literals(&self.nodes.nodes[dst.0 as usize].assignment);
            buchi.add_transition(node, target, labels);
            buchi.add_accepting_state(node);
            buchi.add_accepting_state(target);
            proof {
                assert(k.labels[dst.0 as int] == names(self.nodes.nodes@[dst.0 as int].assignment@).to_set());
            }
            i = i + 1;
        }
        let ghost g1 = buchi@;
        proof {
            lemma_first_state_range(buchi@.ids, S::initial_state());
        }
        let init = buchi.push(S::initial());
        let ghost g2 = buchi@;
        let mut j: usize = 0;
        while j < self.inits.len()
            invariant
                j <= self.inits@.len(),
                k == self@,
                self.wf(),
                2 * self.relations@.len() + self.inits@.len() + 2 < u32::MAX,
                buchi.wf(),
                g2.ids.len() <= 2 * self.relations@.len() + 1,
                buchi@.ids.len() <= g2.ids.len() + j,
                init.0 < g2.ids.len() <= buchi@.ids.len(),
                buchi@ == fold_inits(g2, k, init.0, j as nat),
            decreases self.inits@.len() - j,
        {
            let w = self.inits[j];
            proof {
                assert(k.inits[j as int] == w.0);
                assert(k.ids[w.0 as int] == self.nodes.nodes@[w.0 as int].id@);
                lemma_first_state_range(buchi@.ids, k.ids[w.0 as int]);
            }
            let target = buchi.push(self.nodes.nodes[w.0 as usize].id.duplicate());
            let labels = Neighbors::from_literals(&self.nodes.nodes[w.0 as usize].assignment);
            buchi.add_transition(init, target, labels);
            buchi.add_accepting_state(target);
            proof {
                assert(k.labels[w.0 as int] == names(self.nodes.nodes@[w.0 as int].assignment@).to_set());
            }
            j = j + 1;
        }
        buchi.add_init_state(init);
        buchi.add_accepting_state(init);
        buchi
    }
}

/// Every transition of `g` into a node is labelled by exactly the
/// propositions of a world whose state that node carries.
pub open spec fn labels_target<V>(g: BaV<V>, k: KripkeV<V>) -> bool {
    &&& g.adj.len() == g.ids.len()
    &&& forall|x: int, t: u32|
        0 <= x < g.adj.len() && #[trigger] g.adj[x].contains_key(t) ==> t < g.ids.len() && exists|w: int|
            0 <= w < k.ids.len() && k.ids[w] == g.ids[t as int] && g.adj[x][t] == #[trigger] single_label(k.labels[w])
}

proof fn lemma_push_labels<V>(g: BaV<V>, k: KripkeV<V>, s: V)
    requires
        labels_target(g, k),
        g.ids.len() < u32::MAX,
    ensures
        labels_target(ba_push(g, s).0, k),
        ba_push(g, s).1 < ba_push(g, s).0.ids.len(),
        ba_push(g, s).0.ids[ba_push(g, s).1 as int] == s,
        ba_push(g, s).0.ids.len() >= g.ids.len(),
        ba_push(g, s).0.ids.len() <= g.ids.len() + 1,
{
    let i = first_state(g.ids, s);
    if i >= 0 {
        assert(0 <= i < g.ids.len() && g.ids[i] == s) by {
            let j = choose|j: int| 0 <= j < g.ids.len() && g.ids[j] == s && forall|m: int| 0 <= m < j ==> g.ids[m] != s;
        }
    } else {
        let g1 = ba_push(g, s).0;
        assert((g.ids.len() as u32) as int == g.ids.len());
        assert forall|x: int, t: u32| 0 <= x < g1.adj.len() && #[trigger] g1.adj[x].contains_key(t) implies t < g1.ids.len()
            && exists|w: int|
            0 <= w < k.ids.len() && k.ids[w] == g1.ids[t as int] && g1.adj[x][t] == #[trigger] single_label(k.labels[w]) by {
            if x < g.adj.len() {
                assert(g1.adj[x] == g.adj[x]);
                let w = choose|w: int|
                    0 <= w < k.ids.len() && k.ids[w] == g.ids[t as int] && g.adj[x][t] == #[trigger] single_label(k.labels[w]);
                assert(g1.ids[t as int] == g.ids[t as int]);
            } else {
                assert(g1.adj[x] == Map::<u32, NeighborsV>::empty());
            }
        }
    }
}

proof fn lemma_relation_step_labels<V>(g: BaV<V>, k: KripkeV<V>, p: (u32, u32))
    requires
        labels_target(g, k),
        p.1 < k.ids.len(),
        g.ids.len() + 2 < u32::MAX,
    ensures
        labels_target(relation_step(g, k, p), k),
        relation_step(g, k, p).ids.len() <= g.ids.len() + 2,
{
    let (g1, node) = ba_push(g, k.ids[p.0 as int]);
    lemma_push_labels(g, k, k.ids[p.0 as int]);
    let (g2, target) = ba_push(g1, k.ids[p.1 as int]);
    lemma_push_labels(g1, k, k.ids[p.1 as int]);
    let r = relation_step(g, k, p);
    assert forall|x: int, t: u32| 0 <= x < r.adj.len() && #[trigger] r.adj[x].contains_key(t) implies t < r.ids.len()
        && exists|w: int|
        0 <= w < k.ids.len() && k.ids[w] == r.ids[t as int] && r.adj[x][t] == #[trigger] single_label(k.labels[w]) by {
        if x == node as int && t == target {
            assert(r.adj[x][t] == single_label(k.labels[p.1 as int]));
            assert(k.ids[p.1 as int] == r.ids[t as int]);
        } else {
            assert(g2.adj[x].contains_key(t));
            assert(r.adj[x][t] == g2.adj[x][t]);
        }
    }
}

proof fn lemma_fold_relations_labels<V>(g: BaV<V>, k: KripkeV<V>, n: nat)
    requires
        labels_target(g, k),
        n <= k.relations.len(),
        forall|i: int| 0 <= i < k.relations.len() ==> (#[trigger] k.relations[i]).1 < k.ids.len(),
        g.ids.len() + 2 * n + 2 < u32::MAX,
    ensures
        labels_target(fold_relations(g, k, n), k),
        fold_relations(g, k, n).ids.len() <= g.ids.len() + 2 * n,
    decreases n,
{
    if n > 0 {
        lemma_fold_relations_labels(g, k, (n - 1) as nat);
        lemma_relation_step_labels(fold_relations(g, k, (n - 1) as nat), k, k.relations[n - 1]);
    }
}

proof fn lemma_init_step_labels<V>(g: BaV<V>, k: KripkeV<V>, init: u32, w: u32)
    requires
        labels_target(g, k),
        init < g.ids.len(),
        w < k.ids.len(),
        g.ids.len() + 1 < u32::MAX,
    ensures
        labels_target(init_step(g, k, init, w), k),
        init_step(g, k, init, w).ids.len() <= g.ids.len() + 1,
        init_step(g, k, init, w).ids.len() >= g.ids.len(),
{
    let (g1, target) = ba_push(g, k.ids[w as int]);
    lemma_push_labels(g, k, k.ids[w as int]);
    let r = init_step(g, k, init, w);
    assert forall|x: int, t: u32| 0 <= x < r.adj.len() && #[trigger] r.adj[x].contains_key(t) implies t < r.ids.len()
        && exists|v: int|
        0 <= v < k.ids.len() && k.ids[v] == r.ids[t as int] && r.adj[x][t] == #[trigger] single_label(k.labels[v]) by {
        if x == init as int && t == target {
            assert(r.adj[x][t] == single_label(k.labels[w as int]));
            assert(k.ids[w as int] == r.ids[t as int]);
        } else {
            assert(g1.adj[x].contains_key(t));
            assert(r.adj[x][t] == g1.adj[x][t]);
        }
    }
}

proof fn lemma_fold_inits_labels<V>(g: BaV<V>, k: KripkeV<V>, init: u32, n: nat)
    requires
        labels_target(g, k),
        init < g.ids.len(),
        n <= k.inits.len(),
        forall|i: int| 0 <= i < k.inits.len() ==> (#[trigger] k.inits[i]) < k.ids.len(),
        g.ids.len() + n + 1 < u32::MAX,
    ensures
        labels_target(fold_inits(g, k, init, n), k),
        fold_inits(g, k, init, n).ids.len() <= g.ids.len() + n,
        fold_inits(g, k, init, n).ids.len() >= g.ids.len(),
    decreases n,
{
    if n > 0 {
        lemma_fold_inits_labels(g, k, init, (n - 1) as nat);
        lemma_init_step_labels(fold_inits(g, k, init, (n - 1) as nat), k, init, k.inits[n - 1]);
    }
}

/// Every transition of the automaton of a Kripke structure, from the
/// relation or from the initial node, leads into the node of a world and
/// is labelled by exactly the propositions that hold in that world (the
/// target, not the source).
pub proof fn lemma_kripke_labels<V>(k: KripkeV<V>, alphabet: Seq<Seq<char>>, initial: V)
    requires
        forall|i: int| 0 <= i < k.relations.len() ==> (#[trigger] k.relations[i]).1 < k.ids.len(),
        forall|i: int| 0 <= i < k.inits.len() ==> (#[trigger] k.inits[i]) < k.ids.len(),
        2 * k.relations.len() + k.inits.len() + 2 < u32::MAX,
    ensures
        labels_target(kripke_buchi(k, alphabet, initial), k),
{
    let g0 = BaV {
        alphabet,
        ids: Seq::<V>::empty(),
        adj: Seq::<Map<u32, NeighborsV>>::empty(),
        accepting: Set::<u32>::empty(),
        init: Set::<u32>::empty(),
    };
    lemma_fold_relations_labels(g0, k, k.relations.len());
    let g1 = fold_relations(g0, k, k.relations.len());
    lemma_push_labels(g1, k, initial);
    let (g2, init) = ba_push(g1, initial);
    lemma_fold_inits_labels(g2, k, init, k.inits.len());
}

/// Every node of `g` is accepting, but those in `x`.
pub open spec fn accepting_but<V>(g: BaV<V>, x: Set<u32>) -> bool {
    forall|t: int| 0 <= t < g.ids.len() ==> #[trigger] g.accepting.contains(t as u32) || x.contains(t as u32)
}

proof fn lemma_push_accepting<V>(g: BaV<V>, s: V, x: Set<u32>)
    requires
        accepting_but(g, x),
        g.ids.len() < u32::MAX,
    ensures
        accepting_but(ba_push(g, s).0, x.insert(ba_push(g, s).1)),
        ba_push(g, s).0.accepting == g.accepting,
        ba_push(g, s).0.ids.len() <= g.ids.len() + 1,
{
    let i = first_state(g.ids, s);
    if i < 0 {
        let g1 = ba_push(g, s).0;
        assert forall|t: int| 0 <= t < g1.ids.len() implies #[trigger] g1.accepting.contains(t as u32) || x.insert(
            ba_push(g, s).1,
        ).contains(t as u32) by {
            if t == g.ids.len() {
                assert(ba_push(g, s).1 == t as u32);
            }
        }
    }
}

proof fn lemma_fold_relations_accepting<V>(g: BaV<V>, k: KripkeV<V>, n: nat)
    requires
        accepting_but(g, Set::empty()),
        n <= k.relations.len(),
        g.ids.len() + 2 * n + 2 < u32::MAX,
    ensures
        accepting_but(fold_relations(g, k, n), Set::empty()),
        fold_relations(g, k, n).ids.len() <= g.ids.len() + 2 * n,
    decreases n,
{
    if n > 0 {
        lemma_fold_relations_accepting(g, k, (n - 1) as nat);
        let g0 = fold_relations(g, k, (n - 1) as nat);
        let p = k.relations[n - 1];
        lemma_push_accepting(g0, k.ids[p.0 as int], Set::empty());
        let (g1, node) = ba_push(g0, k.ids[p.0 as int]);
        lemma_push_accepting(g1, k.ids[p.1 as int], Set::<u32>::empty().insert(node));
        let (g2, target) = ba_push(g1, k.ids[p.1 as int]);
        let r = relation_step(g0, k, p);
        assert forall|t: int| 0 <= t < r.ids.len() implies #[trigger] r.accepting.contains(t as u32) || Set::<u32>::empty().contains(
            t as u32,
        ) by {
            assert(g2.accepting.contains(t as u32) || Set::<u32>::empty().insert(node).insert(target).contains(t as u32));
        }
    }
}

proof fn lemma_fold_inits_accepting<V>(g: BaV<V>, k: KripkeV<V>, init: u32, n: nat)
    requires
        accepting_but(g, set![init]),
        n <= k.inits.len(),
        g.ids.len() + n + 1 < u32::MAX,
    ensures
        accepting_but(fold_inits(g, k, init, n), set![init]),
        fold_inits(g, k, init, n).ids.len() <= g.ids.len() + n,
    decreases n,
{
    if n > 0 {
        lemma_fold_inits_accepting(g, k, init, (n - 1) as nat);
        let g0 = fold_inits(g, k, init, (n - 1) as nat);
        let w = k.inits[n - 1];
        lemma_push_accepting(g0, k.ids[w as int], set![init]);
        let (g1, target) = ba_push(g0, k.ids[w as int]);
        let r = init_step(g0, k, init, w);
        assert forall|t: int| 0 <= t < r.ids.len() implies #[trigger] r.accepting.contains(t as u32) || set![init].contains(
            t as u32,
        ) by {
            assert(g1.accepting.contains(t as u32) || set![init].insert(target).contains(t as u32));
        }
    }
}

/// Every node of the automaton of a Kripke structure is accepting, and its
/// one initial node is the node of the initial state.
pub proof fn lemma_kripke_accepting<V>(k: KripkeV<V>, alphabet: Seq<Seq<char>>, initial: V)
    requires
        2 * k.relations.len() + k.inits.len() + 2 < u32::MAX,
    ensures
        forall|t: int|
            0 <= t < kripke_buchi(k, alphabet, initial).ids.len() ==> #[trigger] kripke_buchi(
                k,
                alphabet,
                initial,
            ).accepting.contains(t as u32),
        exists|t: u32|
            t < kripke_buchi(k, alphabet, initial).ids.len() && kripke_buchi(k, alphabet, initial).init == set![t]
                && kripke_buchi(k, alphabet, initial).ids[t as int] == initial,
{
    let g0 = BaV {
        alphabet,
        ids: Seq::<V>::empty(),
        adj: Seq::<Map<u32, NeighborsV>>::empty(),
        accepting: Set::<u32>::empty(),
        init: Set::<u32>::empty(),
    };
    lemma_fold_relations_accepting(g0, k, k.relations.len());
    let g1 = fold_relations(g0, k, k.relations.len());
    lemma_push_accepting(g1, initial, Set::empty());
    let (g2, init) = ba_push(g1, initial);
    assert(Set::<u32>::empty().insert(init) =~= set![init]);
    lemma_fold_inits_accepting(g2, k, init, k.inits.len());
    let g3 = fold_inits(g2, k, init, k.inits.len());
    let r = kripke_buchi(k, alphabet, initial);
    assert forall|t: int| 0 <= t < r.ids.len() implies #[trigger] r.accepting.contains(t as u32) by {
        assert(g3.accepting.contains(t as u32) || set![init].contains(t as u32));
    }
    // the initial node keeps its state and is the only initial one
    lemma_kripke_initial(g2, k, init, k.inits.len(), initial);
    lemma_fold_relations_no_init(g0, k, k.relations.len());
    assert(r.init =~= set![init]);
}

proof fn lemma_kripke_initial<V>(g: BaV<V>, k: KripkeV<V>, init: u32, n: nat, s: V)
    requires
        init < g.ids.len(),
        g.ids[init as int] == s,
        n <= k.inits.len(),
    ensures
        init < fold_inits(g, k, init, n).ids.len(),
        fold_inits(g, k, init, n).ids[init as int] == s,
        fold_inits(g, k, init, n).init == g.init,
    decreases n,
{
    if n > 0 {
        lemma_kripke_initial(g, k, init, (n - 1) as nat, s);
        let g0 = fold_inits(g, k, init, (n - 1) as nat);
        let i = first_state(g0.ids, k.ids[k.inits[n - 1] as int]);
        if i >= 0 {
            let j = choose|j: int| 0 <= j < g0.ids.len() && g0.ids[j] == k.ids[k.inits[n - 1] as int] && forall|m: int| 0 <= m < j ==> g0.ids[m] != k.ids[k.inits[n - 1] as int];
        }
    }
}

proof fn lemma_fold_relations_no_init<V>(g: BaV<V>, k: KripkeV<V>, n: nat)
    requires
        n <= k.relations.len(),
    ensures
        fold_relations(g, k, n).init == g.init,
    decreases n,
{
    if n > 0 {
        lemma_fold_relations_no_init(g, k, (n - 1) as nat);
    }
}

} // verus!
