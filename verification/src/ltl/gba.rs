//! The generalized Büchi automaton of a formula: its alphabet, its until
//! subformulas, and the automaton read off the tableau.
use vstd::prelude::*;
use super::termination::lemma_tableau_terminates;

use super::automata::{
    contradicts, expand_result, expand_spec, expand_terminates, find_match, initial_node,
    insert_by_name, is_first_match, is_name_pos, least, lemma_min_fuel, new1_of, new2_of, next1_of,
    tableau, tableau_fits, ids_sorted, ids_view, names_sorted as names_sorted_nodes, node_wf, nodes_view, nodes_wf, AutomataId,
    Node, NodeV,
};
use super::expression::{Literal, NnfLtl, NnfV};
use super::formula_set::{fset, fset_contains, fset_wf, lemma_nnf_order_basics, lemma_nnf_order_trans, nnf_order, views};
use crate::buchi::{
    label_insert, first_state, id_set, ids_increasing, labels_wf, label_sets, lemma_first_state, nodeset_insert,
    Alphabet, GbaV, GeneralBuchi, Neighbors, NeighborsV, NodeId, gba_push,
};
use crate::counting::refs_valid;
use crate::sorted::{lemma_sorted_by_unique, sorted_by, strict_total};
use crate::names::{
    lemma_sorted_names, sorted_names, lemma_names_canonical, lemma_order_facts, name_contains, name_insert, name_set, names,
    names_copy, names_sorted,
};
use crate::text::{chars_order, lemma_chars_order_trans};

verus! {

/// The names of the propositions of a formula.
pub open spec fn nnf_names(f: NnfV) -> Set<Seq<char>>
    decreases f,
{
    match f {
        NnfV::Lit { name, .. } => set![name],
        NnfV::Bool(_) => Set::empty(),
        NnfV::U(a, b) | NnfV::V(a, b) | NnfV::Or(a, b) | NnfV::And(a, b) => nnf_names(*a) + nnf_names(
            *b,
        ),
        NnfV::X(a) => nnf_names(*a),
    }
}

/// The pairs `(a, b)` such that `a U b` is a subformula.
pub open spec fn until_pairs(f: NnfV) -> Set<(NnfV, NnfV)>
    decreases f,
{
    match f {
        NnfV::Lit { .. } | NnfV::Bool(_) => Set::empty(),
        NnfV::U(a, b) => until_pairs(*a).union(until_pairs(*b)).insert((*a, *b)),
        NnfV::V(a, b) | NnfV::Or(a, b) | NnfV::And(a, b) => until_pairs(*a).union(until_pairs(*b)),
        NnfV::X(a) => until_pairs(*a),
    }
}

impl NnfLtl {
    /// Adds the names of the propositions of the formula to `alphabet`.
    pub fn alphabet_(&self, alphabet: &mut Vec<Literal>)
        requires
            names_sorted(names(old(alphabet)@)),
        ensures
            names_sorted(names(final(alphabet)@)),
            name_set(final(alphabet)@) == name_set(old(alphabet)@) + nnf_names(self@),
        decreases self,
    {
        match self {
            NnfLtl::Literal { name, .. } => {
                name_insert(alphabet, name.clone());
                proof {
                    assert(name_set(old(alphabet)@).insert(name@) =~= name_set(old(alphabet)@) + set![name@]);
                }
            },
            NnfLtl::U(p, q) | NnfLtl::V(p, q) | NnfLtl::Or(p, q) | NnfLtl::And(p, q) => {
                p.alphabet_(alphabet);
                q.alphabet_(alphabet);
                proof {
                    assert(name_set(alphabet@) =~= name_set(old(alphabet)@) + nnf_names(self@));
                }
            },
            NnfLtl::X(p) => p.alphabet_(alphabet),
            NnfLtl::Bool(_) => {
                proof {
                    assert(name_set(old(alphabet)@) + nnf_names(self@) =~= name_set(old(alphabet)@));
                }
            },
        }
    }

    /// The alphabet of the formula: the names of its propositions.
    pub fn alphabet(&self) -> (r: Alphabet)
        ensures
            r.wf(),
            name_set(r.symbols@) == nnf_names(self@),
    {
        let mut symbols: Vec<Literal> = Vec::new();
        proof {
            assert(name_set(symbols@) =~= Set::<Seq<char>>::empty());
        }
        self.alphabet_(&mut symbols);
        proof {
            assert(Set::<Seq<char>>::empty() + nnf_names(self@) =~= nnf_names(self@));
        }
        Alphabet { symbols }
    }
}

/// Pairs of formulas ordered by their first formula, then their second.
pub open spec fn upair_order(a: (NnfV, NnfV), b: (NnfV, NnfV)) -> int {
    if nnf_order(a.0, b.0) != 0 {
        nnf_order(a.0, b.0)
    } else {
        nnf_order(a.1, b.1)
    }
}

/// The values of a list of pairs of formulas.
pub open spec fn upairs(v: Seq<(NnfLtl, NnfLtl)>) -> Seq<(NnfV, NnfV)> {
    v.map_values(|p: (NnfLtl, NnfLtl)| (p.0@, p.1@))
}

/// The pairs increase strictly.
pub open spec fn upairs_sorted(s: Seq<(NnfV, NnfV)>) -> bool {
    forall|i: int, j: int| 0 <= i < j < s.len() ==> upair_order(#[trigger] s[i], #[trigger] s[j]) < 0
}

proof fn lemma_upair_order(a: (NnfV, NnfV), b: (NnfV, NnfV))
    ensures
        -1 <= upair_order(a, b) <= 1,
        upair_order(a, b) == -upair_order(b, a),
        (upair_order(a, b) == 0) <==> (a == b),
{
    lemma_nnf_order_basics(a.0, b.0);
    lemma_nnf_order_basics(a.1, b.1);
}

proof fn lemma_upair_order_trans(a: (NnfV, NnfV), b: (NnfV, NnfV), c: (NnfV, NnfV))
    requires
        upair_order(a, b) < 0,
        upair_order(b, c) < 0,
    ensures
        upair_order(a, c) < 0,
{
    lemma_nnf_order_basics(a.0, b.0);
    lemma_nnf_order_basics(b.0, c.0);
    lemma_nnf_order_basics(a.0, c.0);
    if nnf_order(a.0, b.0) < 0 && nnf_order(b.0, c.0) < 0 {
        lemma_nnf_order_trans(a.0, b.0, c.0);
    } else if nnf_order(a.0, b.0) < 0 {
        assert(b.0 == c.0);
    } else if nnf_order(b.0, c.0) < 0 {
        assert(a.0 == b.0);
    } else {
        lemma_nnf_order_trans(a.1, b.1, c.1);
    }
}

fn compare_upairs(a: &(NnfLtl, NnfLtl), b: &(NnfLtl, NnfLtl)) -> (r: i8)
    ensures
        r as int == upair_order((a.0@, a.1@), (b.0@, b.1@)),
{
    let c = a.0.compare(&b.0);
    if c != 0 {
        c
    } else {
        a.1.compare(&b.1)
    }
}

/// Inserts a pair into the sorted list, where it is not there yet.
fn upair_insert(v: &mut Vec<(NnfLtl, NnfLtl)>, x: (NnfLtl, NnfLtl))
    requires
        upairs_sorted(upairs(old(v)@)),
    ensures
        upairs_sorted(upairs(final(v)@)),
        upairs(final(v)@).to_set() == upairs(old(v)@).to_set().insert((x.0@, x.1@)),
{
    let ghost k = (x.0@, x.1@);
    let ghost old_keys = upairs(v@);
    let mut i: usize = 0;
    let mut go = true;
    while go && i < v.len()
        invariant
            i <= v@.len(),
            k == (x.0@, x.1@),
            v@ == old(v)@,
            old_keys == upairs(v@),
            upairs_sorted(old_keys),
            forall|j: int| 0 <= j < i ==> upair_order(#[trigger] old_keys[j], k) < 0,
            !go ==> i < v@.len() && upair_order(old_keys[i as int], k) >= 0,
        decreases v@.len() - i + (if go { 1int } else { 0int }),
    {
        assert(old_keys[i as int] == (v@[i as int].0@, v@[i as int].1@));
        if compare_upairs(&v[i], &x) < 0 {
            i = i + 1;
        } else {
            go = false;
        }
    }
    if i < v.len() && compare_upairs(&v[i], &x) == 0 {
        proof {
            assert(old_keys[i as int] == (v@[i as int].0@, v@[i as int].1@));
            lemma_upair_order(old_keys[i as int], k);
            assert(old_keys.contains(k));
            assert(old_keys.to_set().insert(k) =~= old_keys.to_set());
        }
        return;
    }
    proof {
        if i < v@.len() {
            assert(old_keys[i as int] == (v@[i as int].0@, v@[i as int].1@));
            lemma_upair_order(old_keys[i as int], k);
        }
    }
    v.insert(i, x);
    proof {
        let nk = upairs(v@);
        assert(nk =~= old_keys.insert(i as int, k));
        assert forall|a: int, b: int| 0 <= a < b < nk.len() implies upair_order(
            #[trigger] nk[a],
            #[trigger] nk[b],
        ) < 0 by {
            if b < i {
            } else if a < i && b == i {
            } else if a < i && b > i {
                assert(nk[b] == old_keys[b - 1]);
                if b - 1 > i {
                    lemma_upair_order_trans(k, old_keys[i as int], old_keys[b - 1]);
                }
                lemma_upair_order_trans(nk[a], k, nk[b]);
            } else if a == i {
                assert(nk[b] == old_keys[b - 1]);
                if b - 1 > i {
                    lemma_upair_order_trans(k, old_keys[i as int], old_keys[b - 1]);
                }
            } else {
                assert(nk[a] == old_keys[a - 1]);
                assert(nk[b] == old_keys[b - 1]);
            }
        }
        assert(nk.to_set() =~= old_keys.to_set().insert(k)) by {
            assert forall|y: (NnfV, NnfV)| nk.to_set().contains(y) implies old_keys.to_set().insert(
                k,
            ).contains(y) by {
                let t = choose|t: int| 0 <= t < nk.len() && nk[t] == y;
                if t < i {
                    assert(old_keys[t] == y);
                } else if t > i {
                    assert(old_keys[t - 1] == y);
                }
            }
            assert forall|y: (NnfV, NnfV)| old_keys.to_set().insert(k).contains(y) implies nk.to_set().contains(
                y,
            ) by {
                if y == k {
                    assert(nk[i as int] == k);
                } else {
                    let t = choose|t: int| 0 <= t < old_keys.len() && old_keys[t] == y;
                    if t < i {
                        assert(nk[t] == y);
                    } else {
                        assert(nk[t + 1] == y);
                    }
                }
            }
        }
    }
}

impl NnfLtl {
    /// Adds the pairs `(a, b)` of the until subformulas `a U b` to the sorted
    /// list `sub_formulas`.
    pub fn extract_unitl_subf(&self, sub_formulas: Vec<(NnfLtl, NnfLtl)>) -> (r: Vec<(NnfLtl, NnfLtl)>)
        requires
            upairs_sorted(upairs(sub_formulas@)),
        ensures
            upairs_sorted(upairs(r@)),
            upairs(r@).to_set() == upairs(sub_formulas@).to_set().union(until_pairs(self@)),
        decreases self,
    {
        match self {
            NnfLtl::Bool(_) | NnfLtl::Literal { .. } => {
                proof {
                    assert(upairs(sub_formulas@).to_set().union(until_pairs(self@)) =~= upairs(
                        sub_formulas@,
                    ).to_set());
                }
                sub_formulas
            },
            NnfLtl::And(f1, f2) | NnfLtl::Or(f1, f2) | NnfLtl::V(f1, f2) => {
                let ghost s0 = upairs(sub_formulas@).to_set();
                let r = f2.extract_unitl_subf(f1.extract_unitl_subf(sub_formulas));
                proof {
                    assert(upairs(r@).to_set() =~= s0.union(until_pairs(self@)));
                }
                r
            },
            NnfLtl::U(f1, f2) => {
                let ghost s0 = upairs(sub_formulas@).to_set();
                let mut s = sub_formulas;
                upair_insert(&mut s, ((**f1).clone(), (**f2).clone()));
                let r = f2.extract_unitl_subf(f1.extract_unitl_subf(s));
                proof {
                    assert(upairs(r@).to_set() =~= s0.union(until_pairs(self@)));
                }
                r
            },
            NnfLtl::X(f) => f.extract_unitl_subf(sub_formulas),
        }
    }
}

/// The sorted name lists `s` with `req ⊆ s ⊆ req ∪ rem`.
pub open spec fn powerset_labels(req: Set<Seq<char>>, rem: Set<Seq<char>>) -> Set<Seq<Seq<char>>> {
    Set::new(
        |s: Seq<Seq<char>>|
            names_sorted(s) && req.subset_of(s.to_set()) && s.to_set().subset_of(req + rem),
    )
}

/// A sorted list without one of its names is sorted, with the other names.
proof fn lemma_remove_sorted(s: Seq<Seq<char>>, k: int)
    requires
        names_sorted(s),
        0 <= k < s.len(),
    ensures
        names_sorted(s.remove(k)),
        s.remove(k).to_set() == s.to_set().remove(s[k]),
{
    let r = s.remove(k);
    assert forall|a: int, b: int| 0 <= a < b < r.len() implies chars_order(#[trigger] r[a], #[trigger] r[b])
        < 0 by {
        let a2 = if a < k { a } else { a + 1 };
        let b2 = if b < k { b } else { b + 1 };
        assert(r[a] == s[a2] && r[b] == s[b2]);
    }
    assert(r.to_set() =~= s.to_set().remove(s[k])) by {
        assert forall|x: Seq<char>| r.to_set().contains(x) implies s.to_set().remove(s[k]).contains(x) by {
            let t = choose|t: int| 0 <= t < r.len() && r[t] == x;
            let t2 = if t < k { t } else { t + 1 };
            assert(s[t2] == x);
            assert(t2 != k);
            if x == s[k] {
                lemma_order_facts(s[t2], s[k]);
                if t2 < k {
                    assert(chars_order(s[t2], s[k]) < 0);
                } else {
                    assert(chars_order(s[k], s[t2]) < 0);
                }
            }
        }
        assert forall|x: Seq<char>| s.to_set().remove(s[k]).contains(x) implies r.to_set().contains(x) by {
            let t = choose|t: int| 0 <= t < s.len() && s[t] == x;
            assert(t != k);
            if t < k {
                assert(r[t] == x);
            } else {
                assert(r[t - 1] == x);
            }
        }
    }
}

/// All the label sets `req ∪ E` for `E ⊆ rem`, each sorted, in increasing
/// order.
fn powerset(required: &Vec<Literal>, remaining: &Vec<Literal>) -> (r: Vec<Vec<Literal>>)
    requires
        names_sorted(names(required@)),
        names_sorted(names(remaining@)),
        name_set(required@).disjoint(name_set(remaining@)),
    ensures
        labels_wf(r@),
        label_sets(r@) == powerset_labels(name_set(required@), name_set(remaining@)),
{
    let ghost req = name_set(required@);
    let mut r: Vec<Vec<Literal>> = Vec::new();
    r.push(names_copy(required));
    proof {
        let rem0 = names(remaining@.take(0)).to_set();
        assert(rem0 =~= Set::empty());
        assert(label_sets(r@) =~= powerset_labels(req, rem0)) by {
            assert(label_sets(r@) =~= set![names(required@)]) by {
                assert(r@.map_values(|x: Vec<Literal>| names(x@)) =~= seq![names(required@)]);
                assert(seq![names(required@)].to_set() =~= set![names(required@)]) by {
                    assert(seq![names(required@)][0] == names(required@));
                }
            }
            assert forall|s: Seq<Seq<char>>| powerset_labels(req, rem0).contains(s) implies s == names(
                required@,
            ) by {
                assert(s.to_set() =~= req);
                lemma_names_canonical(s, names(required@));
            }
        }
    }
    let mut i: usize = 0;
    while i < remaining.len()
        invariant
            i <= remaining@.len(),
            req == name_set(required@),
            names_sorted(names(remaining@)),
            req.disjoint(name_set(remaining@)),
            labels_wf(r@),
            label_sets(r@) == powerset_labels(req, names(remaining@.take(i as int)).to_set()),
        decreases remaining@.len() - i,
    {
        let ghost rem = names(remaining@.take(i as int)).to_set();
        let ghost x = remaining@[i as int]@;
        let ghost old_r = r@;
        proof {
            assert(names(remaining@)[i as int] == x);
            assert(!rem.contains(x)) by {
                if rem.contains(x) {
                    let t = choose|t: int| 0 <= t < i && names(remaining@.take(i as int))[t] == x;
                    assert(names(remaining@)[t] == x);
                    lemma_order_facts(names(remaining@)[t], x);
                }
            }
            assert(!req.contains(x)) by {
                assert(names(remaining@).contains(x));
            }
        }
        let mut extra: Vec<Vec<Literal>> = Vec::new();
        let mut j: usize = 0;
        while j < r.len()
            invariant
                r@ == old_r,
                j <= old_r.len(),
                extra@.len() == j,
                forall|k: int|
                    0 <= k < j ==> names_sorted(names((#[trigger] extra@[k])@)) && name_set(extra@[k]@)
                        == name_set(old_r[k]@).insert(x),
                labels_wf(old_r),
                i < remaining@.len(),
                x == remaining@[i as int]@,
            decreases old_r.len() - j,
        {
            let mut l = names_copy(&r[j]);
            name_insert(&mut l, remaining[i].clone());
            extra.push(l);
            j = j + 1;
        }
        let ghost ext = extra@.map_values(|y: Vec<Literal>| names(y@)).to_set();
        let mut k: usize = 0;
        proof {
            assert(extra@.take(0).map_values(|y: Vec<Literal>| names(y@)).to_set() =~= Set::<Seq<Seq<char>>>::empty());
            assert(label_sets(old_r).union(Set::empty()) =~= label_sets(old_r));
        }
        while k < extra.len()
            invariant
                k <= extra@.len(),
                forall|t: int| 0 <= t < extra@.len() ==> names_sorted(names((#[trigger] extra@[t])@)),
                labels_wf(r@),
                label_sets(r@) == label_sets(old_r).union(
                    extra@.take(k as int).map_values(|y: Vec<Literal>| names(y@)).to_set(),
                ),
            decreases extra@.len() - k,
        {
            let ghost before = label_sets(r@);
            label_insert(&mut r, names_copy(&extra[k]));
            proof {
                let e = extra@.take(k as int).map_values(|y: Vec<Literal>| names(y@));
                assert(extra@.take(k + 1).map_values(|y: Vec<Literal>| names(y@)) =~= e.push(
                    names(extra@[k as int]@),
                ));
                e.lemma_push_to_set_commute(names(extra@[k as int]@));
                assert(label_sets(r@) =~= label_sets(old_r).union(
                    extra@.take(k + 1).map_values(|y: Vec<Literal>| names(y@)).to_set(),
                ));
            }
            k = k + 1;
        }
        proof {
            assert(extra@.take(k as int) =~= extra@);
            let rem2 = names(remaining@.take(i + 1)).to_set();
            assert(names(remaining@.take(i + 1)) =~= names(remaining@.take(i as int)).push(x));
            names(remaining@.take(i as int)).lemma_push_to_set_commute(x);
            assert(rem2 == rem.insert(x));
            let em = extra@.map_values(|y: Vec<Literal>| names(y@));
            let om = old_r.map_values(|y: Vec<Literal>| names(y@));
            assert(label_sets(r@) =~= powerset_labels(req, rem2)) by {
                assert forall|s: Seq<Seq<char>>| label_sets(r@).contains(s) implies powerset_labels(
                    req,
                    rem2,
                ).contains(s) by {
                    if label_sets(old_r).contains(s) {
                    } else {
                        let t = choose|t: int| 0 <= t < em.len() && em[t] == s;
                        let o = names(old_r[t]@);
                        assert(om[t] == o);
                        assert(label_sets(old_r).contains(o));
                        assert(name_set(extra@[t]@) == name_set(old_r[t]@).insert(x));
                    }
                }
                assert forall|s: Seq<Seq<char>>| powerset_labels(req, rem2).contains(s) implies label_sets(
                    r@,
                ).contains(s) by {
                    if s.to_set().contains(x) {
                        let kx = choose|kx: int| 0 <= kx < s.len() && s[kx] == x;
                        lemma_remove_sorted(s, kx);
                        let s0 = s.remove(kx);
                        assert(powerset_labels(req, rem).contains(s0));
                        assert(label_sets(old_r).contains(s0));
                        let t = choose|t: int| 0 <= t < om.len() && #[trigger] om[t] == s0;
                        assert(names(old_r[t]@) == s0);
                        assert(name_set(extra@[t]@) =~= s.to_set());
                        lemma_names_canonical(names(extra@[t]@), s);
                        assert(em[t] == s);
                        assert(ext.contains(s));
                    } else {
                        assert(powerset_labels(req, rem).contains(s));
                    }
                }
            }
        }
        i = i + 1;
    }
    proof {
        assert(remaining@.take(i as int) =~= remaining@);
    }
    r
}

/// The sorted listing of a set of node names.
pub open spec fn sorted_ids(s: Set<u32>) -> Seq<u32> {
    choose|q: Seq<u32>| ids_sorted(q) && q.to_set() == s
}

/// The sorted listing of a set of pairs of formulas.
pub open spec fn sorted_upairs(s: Set<(NnfV, NnfV)>) -> Seq<(NnfV, NnfV)> {
    choose|q: Seq<(NnfV, NnfV)>| upairs_sorted(q) && q.to_set() == s
}

proof fn lemma_sorted_ids(q: Seq<u32>)
    requires
        ids_sorted(q),
    ensures
        sorted_ids(q.to_set()) == q,
{
    let lt = |x: u32, y: u32| x < y;
    assert(ids_sorted(q) && q.to_set() == q.to_set());
    let p = sorted_ids(q.to_set());
    assert(sorted_by(p, lt));
    assert(sorted_by(q, lt));
    lemma_sorted_by_unique(p, q, lt);
}

proof fn lemma_sorted_upairs(q: Seq<(NnfV, NnfV)>)
    requires
        upairs_sorted(q),
    ensures
        sorted_upairs(q.to_set()) == q,
{
    let lt = |x: (NnfV, NnfV), y: (NnfV, NnfV)| upair_order(x, y) < 0;
    assert(upairs_sorted(q) && q.to_set() == q.to_set());
    let p = sorted_upairs(q.to_set());
    assert(strict_total(lt)) by {
        assert forall|x: (NnfV, NnfV), y: (NnfV, NnfV)| #[trigger] lt(x, y) implies !lt(y, x) by {
            lemma_upair_order(x, y);
        }
        assert forall|x: (NnfV, NnfV), y: (NnfV, NnfV)| x != y implies #[trigger] lt(x, y) || lt(y, x) by {
            lemma_upair_order(x, y);
        }
    }
    assert(sorted_by(p, lt));
    assert(sorted_by(q, lt));
    lemma_sorted_by_unique(p, q, lt);
}

/// The names of the positive literals among the formulas.
pub open spec fn pos_names(oldf: Set<NnfV>) -> Set<Seq<char>> {
    Set::new(|s: Seq<char>| oldf.contains(NnfV::Lit { negated: false, name: s }))
}

/// The names of the negated literals among the formulas.
pub open spec fn neg_names(oldf: Set<NnfV>) -> Set<Seq<char>> {
    Set::new(|s: Seq<char>| oldf.contains(NnfV::Lit { negated: true, name: s }))
}

/// The names that a label may not hold: those negated, and every name where
/// `⊥` is among the formulas.
pub open spec fn disallowed_names(oldf: Set<NnfV>, alphabet: Set<Seq<char>>) -> Set<Seq<char>> {
    neg_names(oldf) + (if oldf.contains(NnfV::Bool(false)) {
        alphabet
    } else {
        Set::empty()
    })
}

/// Every formula of the set is `⊤`.
pub open spec fn all_true(oldf: Set<NnfV>) -> bool {
    forall|p: NnfV| oldf.contains(p) ==> p == NnfV::Bool(true)
}

/// The label of a transition out of a node that holds `oldf`: any set where
/// all it holds is `⊤`; else each set of names that holds the positive
/// literals and, of the other names of the alphabet, any that are not
/// disallowed.
pub open spec fn label_spec(oldf: Set<NnfV>, alphabet: Set<Seq<char>>) -> NeighborsV {
    if all_true(oldf) {
        NeighborsV::Any
    } else {
        let req = pos_names(oldf);
        NeighborsV::Just(
            powerset_labels(req, alphabet.difference(req).difference(disallowed_names(oldf, alphabet))),
        )
    }
}

/// A set of names fits what a node holding `oldf` says of the present: it
/// holds the name of each positive literal, no name of a negated literal,
/// otherwise only names of the alphabet, and where `⊥` is held, only the
/// names of positive literals.
pub open spec fn label_fits(oldf: Set<NnfV>, alphabet: Set<Seq<char>>, s: Set<Seq<char>>) -> bool {
    &&& forall|x: Seq<char>| oldf.contains(NnfV::Lit { negated: false, name: x }) ==> #[trigger] s.contains(x)
    &&& forall|x: Seq<char>| oldf.contains(NnfV::Lit { negated: true, name: x }) ==> !#[trigger] s.contains(x)
    &&& forall|x: Seq<char>|
        #[trigger] s.contains(x) ==> alphabet.contains(x) || oldf.contains(NnfV::Lit { negated: false, name: x })
    &&& oldf.contains(NnfV::Bool(false)) ==> forall|x: Seq<char>|
        #[trigger] s.contains(x) ==> oldf.contains(NnfV::Lit { negated: false, name: x })
}

/// The label of a transition out of a node whose literals do not clash:
/// where everything the node holds is `⊤`, any set; otherwise exactly the
/// sorted name lists whose names fit what the node holds.
pub proof fn lemma_label_meaning(oldf: Set<NnfV>, alphabet: Set<Seq<char>>)
    requires
        forall|x: Seq<char>|
            !(#[trigger] oldf.contains(NnfV::Lit { negated: false, name: x }) && oldf.contains(
                NnfV::Lit { negated: true, name: x },
            )),
    ensures
        all_true(oldf) ==> label_spec(oldf, alphabet) == NeighborsV::Any,
        !all_true(oldf) ==> label_spec(oldf, alphabet) is Just,
        forall|s: Seq<Seq<char>>|
            #![trigger label_spec(oldf, alphabet)->Just_0.contains(s)]
            !all_true(oldf) ==> (label_spec(oldf, alphabet)->Just_0.contains(s) <==> (names_sorted(s) && label_fits(
                oldf,
                alphabet,
                s.to_set(),
            ))),
{
    if !all_true(oldf) {
        let req = pos_names(oldf);
        let rem = alphabet.difference(req).difference(disallowed_names(oldf, alphabet));
        assert forall|s: Seq<Seq<char>>|
            #![trigger label_spec(oldf, alphabet)->Just_0.contains(s)]
            label_spec(oldf, alphabet)->Just_0.contains(s) <==> (names_sorted(s) && label_fits(oldf, alphabet, s.to_set())) by {
            let t = s.to_set();
            if powerset_labels(req, rem).contains(s) {
                assert forall|x: Seq<char>| oldf.contains(NnfV::Lit { negated: false, name: x }) implies #[trigger] t.contains(x) by {
                    assert(req.contains(x));
                }
                assert forall|x: Seq<char>| oldf.contains(NnfV::Lit { negated: true, name: x }) implies !#[trigger] t.contains(x) by {
                    assert(!req.contains(x));
                    assert(disallowed_names(oldf, alphabet).contains(x));
                }
            }
            if names_sorted(s) && label_fits(oldf, alphabet, t) {
                assert(req.subset_of(t)) by {
                    assert forall|x: Seq<char>| req.contains(x) implies t.contains(x) by {
                        assert(oldf.contains(NnfV::Lit { negated: false, name: x }));
                    }
                }
                assert(t.subset_of(req + rem)) by {
                    assert forall|x: Seq<char>| t.contains(x) implies (req + rem).contains(x) by {
                        if !req.contains(x) {
                            assert(alphabet.contains(x));
                            assert(!oldf.contains(NnfV::Lit { negated: true, name: x }));
                            assert(!disallowed_names(oldf, alphabet).contains(x));
                        }
                    }
                }
            }
        }
    }
}

/// The label of a transition out of a node that holds the formulas `oldf`.
fn transition_label(oldf: &Vec<NnfLtl>, alphabet: &Alphabet) -> (r: Neighbors)
    requires
        alphabet.wf(),
    ensures
        r.wf(),
        r@ == label_spec(fset(oldf@), alphabet.view_names().to_set()),
{
    let ghost of = fset(oldf@);
    let ghost al = alphabet.view_names().to_set();
    let mut only_true = true;
    let mut i: usize = 0;
    while i < oldf.len()
        invariant
            i <= oldf@.len(),
            only_true == (forall|k: int| 0 <= k < i ==> (#[trigger] oldf@[k])@ == NnfV::Bool(true)),
        decreases oldf@.len() - i,
    {
        match &oldf[i] {
            NnfLtl::Bool(true) => {},
            _ => {
                only_true = false;
            },
        }
        i = i + 1;
    }
    proof {
        assert(only_true == all_true(of)) by {
            if only_true {
                assert forall|p: NnfV| of.contains(p) implies p == NnfV::Bool(true) by {
                    let k = choose|k: int| 0 <= k < views(oldf@).len() && views(oldf@)[k] == p;
                    assert(views(oldf@)[k] == oldf@[k]@);
                }
            } else {
                let k = choose|k: int| 0 <= k < oldf@.len() && !((#[trigger] oldf@[k])@ == NnfV::Bool(true));
                assert(views(oldf@)[k] == oldf@[k]@);
                assert(of.contains(oldf@[k]@));
            }
        }
    }
    if only_true {
        return Neighbors::any(alphabet);
    }
    let mut required: Vec<Literal> = Vec::new();
    let mut negated: Vec<Literal> = Vec::new();
    let mut has_false = false;
    let mut i: usize = 0;
    proof {
        assert(name_set(required@) =~= Set::<Seq<char>>::empty());
        assert(name_set(negated@) =~= Set::<Seq<char>>::empty());
        assert(fset(oldf@.take(0)) =~= Set::<NnfV>::empty());
        assert(pos_names(Set::<NnfV>::empty()) =~= Set::<Seq<char>>::empty());
        assert(neg_names(Set::<NnfV>::empty()) =~= Set::<Seq<char>>::empty());
    }
    while i < oldf.len()
        invariant
            i <= oldf@.len(),
            names_sorted(names(required@)),
            names_sorted(names(negated@)),
            name_set(required@) == pos_names(fset(oldf@.take(i as int))),
            name_set(negated@) == neg_names(fset(oldf@.take(i as int))),
            has_false == fset(oldf@.take(i as int)).contains(NnfV::Bool(false)),
        decreases oldf@.len() - i,
    {
        let ghost before = fset(oldf@.take(i as int));
        let ghost x = oldf@[i as int]@;
        proof {
            assert(views(oldf@.take(i + 1)) =~= views(oldf@.take(i as int)).push(x));
            views(oldf@.take(i as int)).lemma_push_to_set_commute(x);
            assert(fset(oldf@.take(i + 1)) == before.insert(x));
        }
        match &oldf[i] {
            NnfLtl::Literal { negated: false, name } => {
                name_insert(&mut required, name.clone());
                proof {
                    assert(name_set(required@) =~= pos_names(before.insert(x)));
                    assert(neg_names(before) =~= neg_names(before.insert(x)));
                }
            },
            NnfLtl::Literal { negated: true, name } => {
                name_insert(&mut negated, name.clone());
                proof {
                    assert(name_set(negated@) =~= neg_names(before.insert(x)));
                    assert(pos_names(before) =~= pos_names(before.insert(x)));
                }
            },
            NnfLtl::Bool(b) => {
                if !*b {
                    has_false = true;
                }
                proof {
                    assert(pos_names(before) =~= pos_names(before.insert(x)));
                    assert(neg_names(before) =~= neg_names(before.insert(x)));
                }
            },
            _ => {
                proof {
                    assert(pos_names(before) =~= pos_names(before.insert(x)));
                    assert(neg_names(before) =~= neg_names(before.insert(x)));
                }
            },
        }
        i = i + 1;
    }
    proof {
        assert(oldf@.take(i as int) =~= oldf@);
    }
    let ghost rem_spec = al.difference(pos_names(of)).difference(disallowed_names(of, al));
    let mut remaining: Vec<Literal> = Vec::new();
    proof {
        assert(name_set(remaining@) =~= Set::<Seq<char>>::empty());
    }
    if !has_false {
        let mut k: usize = 0;
        proof {
            assert(names(alphabet.symbols@.take(0)).to_set() =~= Set::<Seq<char>>::empty());
        }
        while k < alphabet.symbols.len()
            invariant
                k <= alphabet.symbols@.len(),
                names_sorted(names(remaining@)),
                name_set(remaining@) == names(alphabet.symbols@.take(k as int)).to_set().difference(
                    name_set(required@),
                ).difference(name_set(negated@)),
            decreases alphabet.symbols@.len() - k,
        {
            let ghost y = alphabet.symbols@[k as int]@;
            proof {
                assert(names(alphabet.symbols@.take(k + 1)) =~= names(alphabet.symbols@.take(k as int)).push(y));
                names(alphabet.symbols@.take(k as int)).lemma_push_to_set_commute(y);
            }
            if !name_contains(&required, &alphabet.symbols[k]) && !name_contains(
                &negated,
                &alphabet.symbols[k],
            ) {
                name_insert(&mut remaining, alphabet.symbols[k].clone());
            }
            proof {
                assert(name_set(remaining@) =~= names(alphabet.symbols@.take(k + 1)).to_set().difference(
                    name_set(required@),
                ).difference(name_set(negated@)));
            }
            k = k + 1;
        }
        proof {
            assert(alphabet.symbols@.take(k as int) =~= alphabet.symbols@);
            assert(name_set(remaining@) =~= rem_spec);
        }
    } else {
        proof {
            assert(name_set(remaining@) =~= rem_spec);
        }
    }
    let labels = powerset(&required, &remaining);
    Neighbors::Just(labels)
}

/// The names of the nodes.
pub open spec fn node_names(ns: Seq<NodeV>) -> Set<u32> {
    ns.map_values(|n: NodeV| n.name).to_set()
}

/// Every predecessor that a node names, but the initial pseudo-node, is one
/// of the nodes.
pub open spec fn incoming_closed(ns: Seq<NodeV>) -> bool {
    forall|i: int, m: u32|
        0 <= i < ns.len() && #[trigger] ns[i].incoming.contains(m) ==> m == 0 || node_names(ns).contains(m)
}

/// The formulas held by the node named `m`.
pub open spec fn oldf_of(ns: Seq<NodeV>, m: u32) -> Set<NnfV> {
    ns[choose|i: int| 0 <= i < ns.len() && ns[i].name == m].oldf
}

/// The automaton after the transition from predecessor `m` into node `id`:
/// `id` becomes initial where `m` is the initial pseudo-node; else the node
/// of `m` gets a transition to `id`, labelled after what `m` holds.
pub open spec fn incoming_step(g: GbaV<AutomataId>, id: u32, m: u32, ns: Seq<NodeV>) -> GbaV<AutomataId> {
    if m == 0 {
        GbaV { init: g.init.insert(id), ..g }
    } else {
        let (g2, mid) = gba_push(g, AutomataId(m));
        GbaV {
            adj: g2.adj.update(
                mid as int,
                g2.adj[mid as int].insert(id, label_spec(oldf_of(ns, m), g.alphabet.to_set())),
            ),
            ..g2
        }
    }
}

/// The automaton after the transitions from the predecessors `ms`, in order.
pub open spec fn fold_incoming(g: GbaV<AutomataId>, id: u32, ms: Seq<u32>, ns: Seq<NodeV>) -> GbaV<
    AutomataId,
>
    decreases ms.len(),
{
    if ms.len() == 0 {
        g
    } else {
        incoming_step(fold_incoming(g, id, ms.drop_last(), ns), id, ms.last(), ns)
    }
}

/// The automaton after a tableau node: its state is added, then its
/// incoming transitions, by increasing predecessor name.
pub open spec fn node_step(g: GbaV<AutomataId>, n: NodeV, ns: Seq<NodeV>) -> GbaV<AutomataId> {
    let (g1, id) = gba_push(g, AutomataId(n.name));
    fold_incoming(g1, id, sorted_ids(n.incoming), ns)
}

/// The automaton after the tableau nodes `todo`, in order.
pub open spec fn fold_nodes(g: GbaV<AutomataId>, todo: Seq<NodeV>, ns: Seq<NodeV>) -> GbaV<AutomataId>
    decreases todo.len(),
{
    if todo.len() == 0 {
        g
    } else {
        node_step(fold_nodes(g, todo.drop_last(), ns), todo.last(), ns)
    }
}

/// The node satisfies the until subformula `a U b`: it does not hold it, or
/// it holds `b`.
pub open spec fn accepts(n: NodeV, p: (NnfV, NnfV)) -> bool {
    !n.oldf.contains(NnfV::U(Box::new(p.0), Box::new(p.1))) || n.oldf.contains(p.1)
}

/// The automaton nodes of the tableau nodes that satisfy `a U b`.
pub open spec fn accepting_nodes(ids: Seq<AutomataId>, ns: Seq<NodeV>, p: (NnfV, NnfV)) -> Set<u32> {
    Set::new(
        |k: u32|
            exists|i: int|
                0 <= i < ns.len() && accepts(#[trigger] ns[i], p) && first_state(ids, AutomataId(ns[i].name))
                    == k,
    )
}

/// The automaton over `alphabet` with no node.
pub open spec fn empty_gba(alphabet: Seq<Seq<char>>) -> GbaV<AutomataId> {
    GbaV {
        alphabet,
        ids: Seq::empty(),
        adj: Seq::empty(),
        accepting: Seq::empty(),
        init: Set::empty(),
    }
}

/// The automaton read off the tableau nodes `ns` of `f`: the nodes and
/// transitions of `ns`, in order, and one set of accepting nodes for each
/// until subformula, by increasing subformula.
pub open spec fn extract_spec(ns: Seq<NodeV>, alphabet: Seq<Seq<char>>, f: NnfV) -> GbaV<AutomataId> {
    let g = fold_nodes(empty_gba(alphabet), ns, ns);
    GbaV {
        accepting: sorted_upairs(until_pairs(f)).map_values(
            |p: (NnfV, NnfV)| accepting_nodes(g.ids, ns, p),
        ),
        ..g
    }
}

/// The states of the automaton are distinct names of tableau nodes.
pub open spec fn states_of(g: GbaV<AutomataId>, ns: Seq<NodeV>) -> bool {
    &&& refs_valid(g)
    &&& g.adj.len() == g.ids.len()
    &&& g.ids.no_duplicates()
    &&& forall|k: int| 0 <= k < g.ids.len() ==> node_names(ns).contains(#[trigger] g.ids[k].0)
}

proof fn lemma_first_state_range(ids: Seq<AutomataId>, s: AutomataId)
    ensures
        first_state(ids, s) >= -1,
        first_state(ids, s) >= 0 ==> first_state(ids, s) < ids.len() && ids[first_state(ids, s)] == s,
{
}

proof fn lemma_first_state_found(ids: Seq<AutomataId>, s: AutomataId, k: int)
    requires
        ids.no_duplicates(),
        0 <= k < ids.len(),
        ids[k] == s,
    ensures
        first_state(ids, s) == k,
{
    lemma_first_state(ids, s, k);
}

proof fn lemma_states_bound(g: GbaV<AutomataId>, ns: Seq<NodeV>)
    requires
        states_of(g, ns),
    ensures
        g.ids.len() <= ns.len(),
{
    let q = ids_view(g.ids);
    assert(q.no_duplicates()) by {
        assert forall|i: int, j: int| 0 <= i < q.len() && 0 <= j < q.len() && i != j implies q[i] != q[j] by {
            assert(g.ids[i] != g.ids[j]);
        }
    }
    q.unique_seq_to_set();
    let names_seq = ns.map_values(|n: NodeV| n.name);
    assert(q.to_set().subset_of(node_names(ns))) by {
        assert forall|x: u32| q.to_set().contains(x) implies node_names(ns).contains(x) by {
            let k = choose|k: int| 0 <= k < q.len() && q[k] == x;
            assert(node_names(ns).contains(g.ids[k].0));
        }
    }
    vstd::seq_lib::seq_to_set_is_finite(names_seq);
    vstd::set_lib::lemma_len_subset(q.to_set(), node_names(ns));
    names_seq.lemma_cardinality_of_set();
}

proof fn lemma_push_keeps(g: GbaV<AutomataId>, s: AutomataId, ns: Seq<NodeV>)
    requires
        states_of(g, ns),
        node_names(ns).contains(s.0),
        g.ids.len() + 1 < u32::MAX,
    ensures
        states_of(gba_push(g, s).0, ns),
        gba_push(g, s).1 < gba_push(g, s).0.ids.len(),
        gba_push(g, s).0.ids[gba_push(g, s).1 as int] == s,
        forall|x: AutomataId| g.ids.contains(x) ==> gba_push(g, s).0.ids.contains(x),
        g.ids.len() <= gba_push(g, s).0.ids.len() <= g.ids.len() + 1,
        gba_push(g, s).0.alphabet == g.alphabet,
        gba_push(g, s).0.accepting == g.accepting,
{
    lemma_first_state_range(g.ids, s);
    if first_state(g.ids, s) < 0 {
        assert(!g.ids.contains(s)) by {
            if g.ids.contains(s) {
                let k = choose|k: int| 0 <= k < g.ids.len() && g.ids[k] == s;
                lemma_first_state_found(g.ids, s, k);
            }
        }
        let ids2 = g.ids.push(s);
        assert(ids2.no_duplicates()) by {
            assert forall|i: int, j: int| 0 <= i < ids2.len() && 0 <= j < ids2.len() && i != j implies ids2[i]
                != ids2[j] by {
                if i == g.ids.len() as int {
                    assert(g.ids.contains(ids2[j]));
                } else if j == g.ids.len() as int {
                    assert(g.ids.contains(ids2[i]));
                }
            }
        }
        assert forall|x: AutomataId| g.ids.contains(x) implies ids2.contains(x) by {
            let k = choose|k: int| 0 <= k < g.ids.len() && g.ids[k] == x;
            assert(ids2[k] == x);
        }
        assert forall|k: int| 0 <= k < ids2.len() implies node_names(ns).contains(#[trigger] ids2[k].0) by {
            if k < g.ids.len() {
                assert(ids2[k] == g.ids[k]);
            }
        }
    }
}

proof fn lemma_oldf_of(ns: Seq<NodeV>, k: int)
    requires
        names_sorted_nodes(ns),
        0 <= k < ns.len(),
    ensures
        oldf_of(ns, ns[k].name) == ns[k].oldf,
{
    let m = ns[k].name;
    let i = choose|i: int| 0 <= i < ns.len() && ns[i].name == m;
    if i != k {
        if i < k {
            assert(ns[i].name < ns[k].name);
        } else {
            assert(ns[k].name < ns[i].name);
        }
    }
}

/// The position of the node named `m`.
fn find_node(nodes: &Vec<Node>, m: u32) -> (r: usize)
    requires
        node_names(nodes_view(nodes@)).contains(m),
    ensures
        r < nodes@.len(),
        nodes@[r as int].name.0 == m,
{
    let ghost names_seq = nodes_view(nodes@).map_values(|n: NodeV| n.name);
    proof {
        let k = choose|k: int| 0 <= k < names_seq.len() && names_seq[k] == m;
        assert(nodes@[k].name.0 == m);
    }
    let mut i: usize = 0;
    while i < nodes.len()
        invariant
            i <= nodes@.len(),
            forall|k: int| 0 <= k < i ==> (#[trigger] nodes@[k]).name.0 != m,
            exists|k: int| 0 <= k < nodes@.len() && (#[trigger] nodes@[k]).name.0 == m,
        decreases nodes@.len() - i,
    {
        if nodes[i].name.0 == m {
            return i;
        }
        i = i + 1;
    }
    proof {
        let k = choose|k: int| 0 <= k < nodes@.len() && (#[trigger] nodes@[k]).name.0 == m;
        assert(nodes@[k].name.0 != m);
    }
    0
}

/// Adds the tableau node `nodes[i]` to the automaton: its state, then, for
/// each predecessor, a transition from it or, for the initial pseudo-node,
/// the mark of an initial node.
fn add_node(b: &mut GeneralBuchi<AutomataId>, nodes: &Vec<Node>, i: usize)
    requires
        old(b).wf(),
        nodes_wf(nodes@),
        incoming_closed(nodes_view(nodes@)),
        nodes@.len() + 2 < u32::MAX,
        i < nodes@.len(),
        states_of(old(b)@, nodes_view(nodes@)),
    ensures
        final(b).wf(),
        final(b)@ == node_step(old(b)@, nodes_view(nodes@)[i as int], nodes_view(nodes@)),
        states_of(final(b)@, nodes_view(nodes@)),
        final(b)@.alphabet == old(b)@.alphabet,
        final(b)@.accepting == old(b)@.accepting,
        forall|x: AutomataId| old(b)@.ids.contains(x) ==> final(b)@.ids.contains(x),
        final(b)@.ids.contains(nodes@[i as int].name),
{
    let ghost ns = nodes_view(nodes@);
    let ghost g0 = b@;
    let n = &nodes[i];
    let ghost q = ids_view(n.incoming@);
    proof {
        assert(ns[i as int] == n@);
        assert(ns.map_values(|x: NodeV| x.name)[i as int] == n.name.0);
        lemma_states_bound(b@, ns);
        lemma_push_keeps(b@, n.name, ns);
    }
    let id = b.push(n.name);
    let ghost g1 = b@;
    let mut j: usize = 0;
    while j < n.incoming.len()
        invariant
            j <= q.len(),
            q == ids_view(n.incoming@),
            n == nodes@[i as int],
            i < nodes@.len(),
            ns == nodes_view(nodes@),
            nodes_wf(nodes@),
            incoming_closed(ns),
            nodes@.len() + 2 < u32::MAX,
            b.wf(),
            b@ == fold_incoming(g1, id.0, q.take(j as int), ns),
            states_of(b@, ns),
            id.0 < g1.ids.len() <= b@.ids.len(),
            forall|x: AutomataId| g1.ids.contains(x) ==> b@.ids.contains(x),
            g1.ids.contains(n.name),
            forall|x: AutomataId| g0.ids.contains(x) ==> g1.ids.contains(x),
            b@.alphabet == g0.alphabet,
            b@.accepting == g0.accepting,
        decreases q.len() - j,
    {
        let m = n.incoming[j];
        let ghost prev = b@;
        proof {
            assert(q.take(j + 1).drop_last() =~= q.take(j as int));
            assert(q[j as int] == m.0);
            assert(q.take(j + 1).last() == m.0);
        }
        if m.is_initial() {
            b.add_init_state(id);
        } else {
            proof {
                assert(q.to_set().contains(q[j as int]));
                assert(ns[i as int].incoming.contains(m.0));
            }
            let k = find_node(nodes, m.0);
            proof {
                lemma_oldf_of(ns, k as int);
                assert(ns[k as int] == nodes@[k as int]@);
            }
            let label = transition_label(&nodes[k].oldf, &b.alphabet);
            proof {
                lemma_states_bound(b@, ns);
                lemma_push_keeps(b@, m, ns);
            }
            let m_id = b.push(m);
            b.add_transition(m_id, id, label);
        }
        j = j + 1;
    }
    proof {
        assert(q.take(j as int) =~= q);
        assert(node_wf(nodes@[i as int]));
        lemma_sorted_ids(q);
        assert(ns[i as int].incoming == q.to_set());
    }
}

/// The automaton nodes of the first `n` tableau nodes that satisfy `a U b`.
pub open spec fn accepting_upto(ids: Seq<AutomataId>, ns: Seq<NodeV>, p: (NnfV, NnfV), n: int) -> Set<u32> {
    Set::new(
        |k: u32|
            exists|i: int|
                0 <= i < n && accepts(#[trigger] ns[i], p) && first_state(ids, AutomataId(ns[i].name)) == k,
    )
}

/// The automaton nodes of the tableau nodes that satisfy `p.0 U p.1`.
fn accepting_set(b: &GeneralBuchi<AutomataId>, nodes: &Vec<Node>, p: &(NnfLtl, NnfLtl)) -> (r: Vec<NodeId>)
    requires
        b.wf(),
        b@.ids.no_duplicates(),
        forall|i: int| 0 <= i < nodes@.len() ==> b@.ids.contains(#[trigger] nodes@[i].name),
    ensures
        ids_increasing(r@),
        id_set(r@) == accepting_nodes(b@.ids, nodes_view(nodes@), (p.0@, p.1@)),
{
    let ghost ns = nodes_view(nodes@);
    let ghost pv = (p.0@, p.1@);
    let mut acc: Vec<NodeId> = Vec::new();
    let mut i: usize = 0;
    proof {
        assert(id_set(acc@) =~= accepting_upto(b@.ids, ns, pv, 0));
    }
    while i < nodes.len()
        invariant
            i <= nodes@.len(),
            ns == nodes_view(nodes@),
            pv == (p.0@, p.1@),
            b.wf(),
            b@.ids.no_duplicates(),
            forall|t: int| 0 <= t < nodes@.len() ==> b@.ids.contains(#[trigger] nodes@[t].name),
            ids_increasing(acc@),
            id_set(acc@) == accepting_upto(b@.ids, ns, pv, i as int),
        decreases nodes@.len() - i,
    {
        let ghost before = id_set(acc@);
        let u = NnfLtl::U(Box::new(p.0.clone()), Box::new(p.1.clone()));
        proof {
            assert(ns[i as int] == nodes@[i as int]@);
            assert(u@ == NnfV::U(Box::new(pv.0), Box::new(pv.1)));
        }
        if !fset_contains(&nodes[i].oldf, &u) || fset_contains(&nodes[i].oldf, &p.1) {
            match b.get_node(&nodes[i].name) {
                Some(id) => {
                    nodeset_insert(&mut acc, id);
                    proof {
                        assert(AutomataId(ns[i as int].name) == nodes@[i as int].name);
                        assert(id_set(acc@) =~= accepting_upto(b@.ids, ns, pv, i + 1));
                    }
                },
                None => {
                    proof {
                        assert(b@.ids.contains(nodes@[i as int].name));
                        let k = choose|k: int| 0 <= k < b@.ids.len() && b@.ids[k] == nodes@[i as int].name;
                        lemma_first_state_found(b@.ids, nodes@[i as int].name, k);
                    }
                },
            }
        } else {
            proof {
                assert(!accepts(ns[i as int], pv));
                assert(id_set(acc@) =~= accepting_upto(b@.ids, ns, pv, i + 1));
            }
        }
        i = i + 1;
    }
    proof {
        assert(accepting_upto(b@.ids, ns, pv, i as int) =~= accepting_nodes(b@.ids, ns, pv));
    }
    acc
}

/// The names of the alphabet of the automaton of `f`: those of `f`, and of
/// the alphabet given, where one is.
pub open spec fn alphabet_names(f: NnfV, extra: Option<&Alphabet>) -> Set<Seq<char>> {
    match extra {
        Some(a) => nnf_names(f) + name_set(a.symbols@),
        None => nnf_names(f),
    }
}

/// The generalized Büchi automaton read off the tableau nodes `nodes` of
/// `f`: a node for each tableau node and each predecessor, in order; the
/// transitions into each node, labelled after what the predecessor holds;
/// the initial nodes, those with the initial pseudo-node as predecessor; and
/// one set of accepting nodes per until subformula of `f`.
pub fn extract_buchi(nodes: &Vec<Node>, alphabet: Option<&Alphabet>, f: &NnfLtl) -> (r: GeneralBuchi<AutomataId>)
    requires
        nodes_wf(nodes@),
        incoming_closed(nodes_view(nodes@)),
        nodes@.len() + 2 < u32::MAX,
    ensures
        r.wf(),
        r@ == extract_spec(nodes_view(nodes@), sorted_names(alphabet_names(f@, alphabet)), f@),
        refs_valid(r@),
{
    let ghost ns = nodes_view(nodes@);
    let a = match alphabet {
        Some(x) => f.alphabet().union(x),
        None => f.alphabet(),
    };
    let ghost a_names = names(a.symbols@);
    proof {
        lemma_sorted_names(a_names);
        assert(a_names.to_set() == alphabet_names(f@, alphabet));
    }
    let mut b: GeneralBuchi<AutomataId> = GeneralBuchi::new(a);
    proof {
        assert(b@ =~= empty_gba(a_names)) by {
            assert(b@.ids =~= Seq::<AutomataId>::empty());
            assert(b@.adj =~= Seq::<Map<u32, NeighborsV>>::empty());
            assert(b@.accepting =~= Seq::<Set<u32>>::empty());
        }
        assert(ns.take(0) =~= Seq::<NodeV>::empty());
    }
    let mut i: usize = 0;
    while i < nodes.len()
        invariant
            i <= nodes@.len(),
            ns == nodes_view(nodes@),
            nodes_wf(nodes@),
            incoming_closed(ns),
            nodes@.len() + 2 < u32::MAX,
            b.wf(),
            b@ == fold_nodes(empty_gba(a_names), ns.take(i as int), ns),
            states_of(b@, ns),
            b@.alphabet == a_names,
            b@.accepting == Seq::<Set<u32>>::empty(),
            forall|t: int| 0 <= t < i ==> b@.ids.contains(#[trigger] nodes@[t].name),
        decreases nodes@.len() - i,
    {
        add_node(&mut b, nodes, i);
        proof {
            assert(ns.take(i + 1).drop_last() =~= ns.take(i as int));
            assert(ns.take(i + 1).last() == ns[i as int]);
        }
        i = i + 1;
    }
    proof {
        assert(ns.take(i as int) =~= ns);
    }
    let ghost g = b@;
    let ghost empty_pairs: Seq<(NnfLtl, NnfLtl)> = Seq::empty();
    proof {
        assert(upairs(empty_pairs) =~= Seq::<(NnfV, NnfV)>::empty());
    }
    let pairs = f.extract_unitl_subf(Vec::new());
    let ghost ps = upairs(pairs@);
    proof {
        assert(upairs(Seq::<(NnfLtl, NnfLtl)>::empty()).to_set() =~= Set::<(NnfV, NnfV)>::empty());
        assert(ps.to_set() =~= until_pairs(f@));
        lemma_sorted_upairs(ps);
        assert(ps.take(0).map_values(|q: (NnfV, NnfV)| accepting_nodes(g.ids, ns, q)) =~= Seq::<Set<u32>>::empty());
    }
    let mut t: usize = 0;
    while t < pairs.len()
        invariant
            t <= pairs@.len(),
            ps == upairs(pairs@),
            ns == nodes_view(nodes@),
            b.wf(),
            b@.ids == g.ids,
            b@.adj == g.adj,
            b@.init == g.init,
            b@.alphabet == g.alphabet,
            states_of(g, ns),
            forall|k: int| 0 <= k < nodes@.len() ==> g.ids.contains(#[trigger] nodes@[k].name),
            b@.accepting == ps.take(t as int).map_values(|q: (NnfV, NnfV)| accepting_nodes(g.ids, ns, q)),
        decreases pairs@.len() - t,
    {
        let acc = accepting_set(&b, nodes, &pairs[t]);
        b.add_accepting_state(&acc);
        proof {
            assert(ps[t as int] == (pairs@[t as int].0@, pairs@[t as int].1@));
            assert(ps.take(t + 1).map_values(|q: (NnfV, NnfV)| accepting_nodes(g.ids, ns, q)) =~= ps.take(
                t as int,
            ).map_values(|q: (NnfV, NnfV)| accepting_nodes(g.ids, ns, q)).push(accepting_nodes(g.ids, ns, ps[t as int])));
        }
        t = t + 1;
    }
    proof {
        assert(ps.take(t as int) =~= ps);
        assert(b@.accepting =~= sorted_upairs(until_pairs(f@)).map_values(
            |q: (NnfV, NnfV)| accepting_nodes(g.ids, ns, q),
        ));
        assert forall|c: int, q: u32| 0 <= c < b@.accepting.len() && #[trigger] b@.accepting[c].contains(q)
            implies q < b@.ids.len() by {
            let w = choose|w: int|
                0 <= w < ns.len() && accepts(#[trigger] ns[w], ps[c]) && first_state(g.ids, AutomataId(ns[w].name))
                    == q;
            lemma_first_state_range(g.ids, AutomataId(ns[w].name));
        }
    }
    b
}

/// The predecessors of `node` and of the nodes of `ns` are nodes of `ns` or
/// the initial pseudo-node.
pub open spec fn closed_under(node: NodeV, ns: Seq<NodeV>) -> bool {
    &&& forall|m: u32| #[trigger] node.incoming.contains(m) ==> m == 0 || node_names(ns).contains(m)
    &&& incoming_closed(ns)
}

proof fn lemma_insert_closed(ns: Seq<NodeV>, k: int, node: NodeV)
    requires
        0 <= k <= ns.len(),
        closed_under(node, ns),
    ensures
        node_names(ns.insert(k, node)) == node_names(ns).insert(node.name),
        incoming_closed(ns.insert(k, node)),
{
    let ns2 = ns.insert(k, node);
    let f = |n: NodeV| n.name;
    assert(node_names(ns2) =~= node_names(ns).insert(node.name)) by {
        assert forall|x: u32| node_names(ns2).contains(x) implies node_names(ns).insert(node.name).contains(x) by {
            let j = choose|j: int| 0 <= j < ns2.len() && ns2.map_values(f)[j] == x;
            if j < k {
                assert(ns.map_values(f)[j] == x);
            } else if j > k {
                assert(ns.map_values(f)[j - 1] == x);
            }
        }
        assert forall|x: u32| node_names(ns).insert(node.name).contains(x) implies node_names(ns2).contains(x) by {
            if x == node.name {
                assert(ns2.map_values(f)[k] == x);
            } else {
                let j = choose|j: int| 0 <= j < ns.len() && ns.map_values(f)[j] == x;
                if j < k {
                    assert(ns2.map_values(f)[j] == x);
                } else {
                    assert(ns2.map_values(f)[j + 1] == x);
                }
            }
        }
    }
    assert forall|i: int, m: u32|
        0 <= i < ns2.len() && #[trigger] ns2[i].incoming.contains(m) implies m == 0 || node_names(ns2).contains(m) by {
        if i < k {
            assert(ns2[i] == ns[i]);
            assert(ns[i].incoming.contains(m));
        } else if i > k {
            assert(ns2[i] == ns[i - 1]);
            assert(ns[i - 1].incoming.contains(m));
        }
    }
}

proof fn lemma_update_closed(ns: Seq<NodeV>, i: int, node: NodeV)
    requires
        0 <= i < ns.len(),
        closed_under(node, ns),
    ensures
        node_names(ns.update(i, NodeV { incoming: ns[i].incoming.union(node.incoming), ..ns[i] })) == node_names(ns),
        incoming_closed(ns.update(i, NodeV { incoming: ns[i].incoming.union(node.incoming), ..ns[i] })),
{
    let ns2 = ns.update(i, NodeV { incoming: ns[i].incoming.union(node.incoming), ..ns[i] });
    let f = |n: NodeV| n.name;
    assert(ns2.map_values(f) =~= ns.map_values(f));
    assert forall|j: int, m: u32|
        0 <= j < ns2.len() && #[trigger] ns2[j].incoming.contains(m) implies m == 0 || node_names(ns2).contains(m) by {
        if j != i {
            assert(ns[j].incoming.contains(m));
        } else if ns[i].incoming.contains(m) {
        } else {
            assert(node.incoming.contains(m));
        }
    }
}

/// The expansion keeps the node set closed under predecessors, and keeps
/// every node name.
proof fn lemma_expand_closed(k: nat, last: nat, node: NodeV, ns: Seq<NodeV>)
    requires
        closed_under(node, ns),
        expand_spec(k, last, node, ns) is Some,
    ensures
        incoming_closed(expand_spec(k, last, node, ns).unwrap().0),
        node_names(ns).subset_of(node_names(expand_spec(k, last, node, ns).unwrap().0)),
    decreases k,
{
    if node.newf.is_empty() {
        let i = find_match(ns, node.oldf, node.next);
        if i >= 0 {
            assert(is_first_match(ns, node.oldf, node.next, i));
            lemma_update_closed(ns, i, node);
        } else {
            let new_node = NodeV {
                name: (last + 1) as u32,
                incoming: set![node.name],
                newf: node.next,
                next: Set::empty(),
                oldf: Set::empty(),
            };
            let kk = if exists|kk: int| is_name_pos(ns, node.name, kk) {
                choose|kk: int| is_name_pos(ns, node.name, kk)
            } else {
                ns.len() as int
            };
            assert(insert_by_name(ns, node) == ns.insert(kk, node));
            lemma_insert_closed(ns, kk, node);
            let ns2 = insert_by_name(ns, node);
            assert(closed_under(new_node, ns2));
            lemma_expand_closed((k - 1) as nat, last + 1, new_node, ns2);
        }
    } else {
        let n = least(node.newf);
        let rest = node.newf.remove(n);
        match n {
            NnfV::Lit { .. } | NnfV::Bool(_) => {
                if !contradicts(n, node.oldf) {
                    lemma_expand_closed(
                        (k - 1) as nat,
                        last,
                        NodeV { newf: rest, oldf: node.oldf.insert(n), ..node },
                        ns,
                    );
                }
            },
            NnfV::U(_, _) | NnfV::V(_, _) | NnfV::Or(_, _) => {
                let n1 = NodeV {
                    name: (last + 1) as u32,
                    incoming: node.incoming,
                    next: node.next.union(next1_of(n)),
                    oldf: node.oldf.insert(n),
                    newf: rest.union(new1_of(n).difference(node.oldf)),
                };
                let n2 = NodeV {
                    name: (last + 2) as u32,
                    incoming: node.incoming,
                    next: node.next,
                    oldf: node.oldf.insert(n),
                    newf: rest.union(new2_of(n).difference(node.oldf)),
                };
                lemma_expand_closed((k - 1) as nat, last + 2, n1, ns);
                let (t, l) = expand_spec((k - 1) as nat, last + 2, n1, ns).unwrap();
                assert(closed_under(n2, t));
                lemma_expand_closed((k - 1) as nat, l, n2, t);
            },
            NnfV::And(p, q) => {
                lemma_expand_closed(
                    (k - 1) as nat,
                    last,
                    NodeV {
                        oldf: node.oldf.insert(*p).insert(*q),
                        newf: rest.union(set![*p, *q].difference(node.oldf)),
                        ..node
                    },
                    ns,
                );
            },
            NnfV::X(p) => {
                lemma_expand_closed(
                    (k - 1) as nat,
                    last,
                    NodeV { next: node.next.insert(*p), oldf: node.oldf.insert(n), newf: rest, ..node },
                    ns,
                );
            },
        }
    }
}

/// Every predecessor named in the tableau, but the initial pseudo-node, is a
/// node of the tableau.
pub proof fn lemma_tableau_closed(f: NnfV)
    ensures
        incoming_closed(tableau(f)),
{
    lemma_tableau_terminates(f);
    let k = choose|k: nat| #[trigger] expand_spec(k, 1, initial_node(f), Seq::empty()) is Some;
    lemma_min_fuel(k, 1, initial_node(f), Seq::empty());
    assert(closed_under(initial_node(f), Seq::empty()));
    lemma_expand_closed(k, 1, initial_node(f), Seq::empty());
}

impl NnfLtl {
    /// The generalized Büchi automaton of the formula, over its alphabet and
    /// the alphabet given: the automaton read off the tableau of the formula.
    pub fn gba(&self, alphabet: Option<&Alphabet>) -> (r: GeneralBuchi<AutomataId>)
        requires
            tableau_fits(self@),
            tableau(self@).len() + 2 < u32::MAX,
        ensures
            r.wf(),
            r@ == extract_spec(tableau(self@), sorted_names(alphabet_names(self@, alphabet)), self@),
            refs_valid(r@),
    {
        let nodes = super::automata::AutomataGraph::create_graph(self);
        proof {
            lemma_tableau_closed(self@);
        }
        extract_buchi(&nodes, alphabet, self)
    }
}

/// A tableau node is accepting for `a U b` exactly when it does not hold
/// `a U b`, or it already holds `b`: a node that still owes `b` is not.
pub proof fn lemma_accepts_meaning(n: NodeV, a: NnfV, b: NnfV)
    ensures
        n.oldf.contains(b) ==> accepts(n, (a, b)),
        !n.oldf.contains(NnfV::U(Box::new(a), Box::new(b))) ==> accepts(n, (a, b)),
        n.oldf.contains(NnfV::U(Box::new(a), Box::new(b))) && !n.oldf.contains(b) ==> !accepts(n, (a, b)),
{
}

} // verus!
