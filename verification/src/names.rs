//! Sets of atomic propositions, kept as lists sorted by name.
use vstd::prelude::*;

use crate::ltl::expression::Literal;
use crate::text::{
    chars_order, compare_str, lemma_chars_order_antisym, lemma_chars_order_eq,
    lemma_chars_order_range, lemma_chars_order_trans,
};

verus! {

/// The names of a list of propositions.
pub open spec fn names(v: Seq<Literal>) -> Seq<Seq<char>> {
    v.map_values(|l: Literal| l@)
}

/// The names increase strictly.
pub open spec fn names_sorted(s: Seq<Seq<char>>) -> bool {
    forall|i: int, j: int| 0 <= i < j < s.len() ==> chars_order(#[trigger] s[i], #[trigger] s[j]) < 0
}

/// A sorted list of propositions: a set of names.
pub open spec fn name_set(v: Seq<Literal>) -> Set<Seq<char>> {
    names(v).to_set()
}

pub proof fn lemma_order_facts(a: Seq<char>, b: Seq<char>)
    ensures
        -1 <= chars_order(a, b) <= 1,
        chars_order(a, b) == -chars_order(b, a),
        (chars_order(a, b) == 0) <==> (a == b),
{
    lemma_chars_order_range(a, b);
    lemma_chars_order_antisym(a, b);
    lemma_chars_order_eq(a, b);
}

/// Two sorted lists with the same names are the same list of names.
pub proof fn lemma_names_canonical(a: Seq<Seq<char>>, b: Seq<Seq<char>>)
    requires
        names_sorted(a),
        names_sorted(b),
        a.to_set() == b.to_set(),
    ensures
        a == b,
    decreases a.len(),
{
    if a.len() == 0 {
        if b.len() > 0 {
            assert(b.to_set().contains(b[0]));
        }
        assert(a =~= b);
    } else {
        assert(a.to_set().contains(a[0]));
        assert(b.len() > 0);
        assert(b.to_set().contains(b[0]));
        let i = choose|i: int| 0 <= i < b.len() && b[i] == a[0];
        let j = choose|j: int| 0 <= j < a.len() && a[j] == b[0];
        lemma_order_facts(a[0], b[0]);
        if i > 0 {
            assert(chars_order(b[0], b[i]) < 0);
            if j > 0 {
                assert(chars_order(a[0], a[j]) < 0);
            }
        }
        assert(a[0] == b[0]);
        let a1 = a.drop_first();
        let b1 = b.drop_first();
        assert(a1.to_set() =~= b1.to_set()) by {
            assert forall|x: Seq<char>| a1.to_set().contains(x) implies b1.to_set().contains(x) by {
                let k = choose|k: int| 0 <= k < a1.len() && a1[k] == x;
                assert(a.to_set().contains(x));
                assert(chars_order(a[0], a[k + 1]) < 0);
                lemma_order_facts(a[0], x);
                let m = choose|m: int| 0 <= m < b.len() && b[m] == x;
                assert(m != 0);
                assert(b1[m - 1] == x);
            }
            assert forall|x: Seq<char>| b1.to_set().contains(x) implies a1.to_set().contains(x) by {
                let k = choose|k: int| 0 <= k < b1.len() && b1[k] == x;
                assert(b.to_set().contains(x));
                assert(chars_order(b[0], b[k + 1]) < 0);
                lemma_order_facts(b[0], x);
                let m = choose|m: int| 0 <= m < a.len() && a[m] == x;
                assert(m != 0);
                assert(a1[m - 1] == x);
            }
        }
        lemma_names_canonical(a1, b1);
        assert(a =~= seq![a[0]] + a1);
        assert(b =~= seq![b[0]] + b1);
    }
}

/// Whether the list holds the name.
pub fn name_contains(v: &Vec<Literal>, x: &Literal) -> (r: bool)
    ensures
        r == names(v@).contains(x@),
{
    let mut i: usize = 0;
    while i < v.len()
        invariant
            i <= v@.len(),
            forall|j: int| 0 <= j < i ==> names(v@)[j] != x@,
        decreases v@.len() - i,
    {
        if compare_str(v[i].0.as_str(), x.0.as_str()) == 0 {
            proof {
                lemma_order_facts(v@[i as int]@, x@);
                assert(names(v@)[i as int] == x@);
            }
            return true;
        }
        proof {
            lemma_order_facts(v@[i as int]@, x@);
            assert(names(v@)[i as int] == v@[i as int]@);
        }
        i = i + 1;
    }
    false
}

/// Inserts the name into the sorted list, where it is not there yet.
pub fn name_insert(v: &mut Vec<Literal>, x: Literal)
    requires
        names_sorted(names(old(v)@)),
    ensures
        names_sorted(names(final(v)@)),
        name_set(final(v)@) == name_set(old(v)@).insert(x@),
{
    let ghost k = x@;
    let ghost old_keys = names(v@);
    let mut i: usize = 0;
    let mut go = true;
    while go && i < v.len()
        invariant
            i <= v@.len(),
            k == x@,
            v@ == old(v)@,
            old_keys == names(v@),
            names_sorted(old_keys),
            forall|j: int| 0 <= j < i ==> chars_order(#[trigger] old_keys[j], k) < 0,
            !go ==> i < v@.len() && chars_order(old_keys[i as int], k) >= 0,
        decreases v@.len() - i + (if go { 1int } else { 0int }),
    {
        assert(old_keys[i as int] == v@[i as int]@);
        if compare_str(v[i].0.as_str(), x.0.as_str()) < 0 {
            i = i + 1;
        } else {
            go = false;
        }
    }
    if i < v.len() && compare_str(v[i].0.as_str(), x.0.as_str()) == 0 {
        proof {
            assert(old_keys[i as int] == v@[i as int]@);
            lemma_order_facts(old_keys[i as int], k);
            assert(old_keys.contains(k));
            assert(old_keys.to_set().insert(k) =~= old_keys.to_set());
        }
        return;
    }
    proof {
        if i < v@.len() {
            assert(old_keys[i as int] == v@[i as int]@);
            lemma_order_facts(old_keys[i as int], k);
        }
    }
    v.insert(i, x);
    proof {
        let nk = names(v@);
        assert(nk =~= old_keys.insert(i as int, k));
        assert forall|a: int, b: int| 0 <= a < b < nk.len() implies chars_order(
            #[trigger] nk[a],
            #[trigger] nk[b],
        ) < 0 by {
            if b < i {
            } else if a < i && b == i {
            } else if a < i && b > i {
                assert(nk[b] == old_keys[b - 1]);
                if b - 1 > i {
                    lemma_chars_order_trans(k, old_keys[i as int], old_keys[b - 1]);
                }
                lemma_chars_order_trans(nk[a], k, nk[b]);
            } else if a == i {
                assert(nk[b] == old_keys[b - 1]);
                if b - 1 > i {
                    lemma_chars_order_trans(k, old_keys[i as int], old_keys[b - 1]);
                }
            } else {
                assert(nk[a] == old_keys[a - 1]);
                assert(nk[b] == old_keys[b - 1]);
            }
        }
        assert(nk.to_set() =~= old_keys.to_set().insert(k)) by {
            assert forall|y: Seq<char>| nk.to_set().contains(y) implies old_keys.to_set().insert(
                k,
            ).contains(y) by {
                let t = choose|t: int| 0 <= t < nk.len() && nk[t] == y;
                if t < i {
                    assert(old_keys[t] == y);
                } else if t > i {
                    assert(old_keys[t - 1] == y);
                }
            }
            assert forall|y: Seq<char>| old_keys.to_set().insert(k).contains(y) implies nk.to_set().contains(
                y,
            ) by {
                if y == k {
                    assert(nk[i as int] == k);
                } else {
                    let t = choose|t: int| 0 <= t < old_keys.len() && old_keys[t] == y;
                    if t < i {
                        assert(nk[t] == y);
                    } else {
                        assert(nk[t + 1] == y);
                    }
                }
            }
        }
    }
}

/// Whether the two lists hold the same names in the same order.
pub fn names_equal(a: &Vec<Literal>, b: &Vec<Literal>) -> (r: bool)
    ensures
        r == (names(a@) == names(b@)),
{
    if a.len() != b.len() {
        proof {
            if names(a@) == names(b@) {
                assert(names(a@).len() == names(b@).len());
            }
        }
        return false;
    }
    let mut i: usize = 0;
    while i < a.len()
        invariant
            i <= a@.len(),
            a@.len() == b@.len(),
            forall|j: int| 0 <= j < i ==> names(a@)[j] == names(b@)[j],
        decreases a@.len() - i,
    {
        if compare_str(a[i].0.as_str(), b[i].0.as_str()) != 0 {
            proof {
                lemma_order_facts(a@[i as int]@, b@[i as int]@);
                if names(a@) == names(b@) {
                    assert(names(a@)[i as int] == names(b@)[i as int]);
                }
            }
            return false;
        }
        proof {
            lemma_order_facts(a@[i as int]@, b@[i as int]@);
        }
        i = i + 1;
    }
    assert(names(a@) =~= names(b@));
    true
}

/// A copy of the list.
pub fn names_copy(v: &Vec<Literal>) -> (r: Vec<Literal>)
    ensures
        names(r@) == names(v@),
{
    let mut r: Vec<Literal> = Vec::new();
    let mut i: usize = 0;
    while i < v.len()
        invariant
            i <= v@.len(),
            r@.len() == i,
            forall|k: int| 0 <= k < i ==> (#[trigger] r@[k])@ == v@[k]@,
        decreases v@.len() - i,
    {
        r.push(v[i].clone());
        i = i + 1;
    }
    assert(names(r@) =~= names(v@));
    r
}

/// Lexicographic comparison of lists of names, name by name: `-1`, `0` or
/// `1`. A list comes before those that extend it.
pub open spec fn label_order(a: Seq<Seq<char>>, b: Seq<Seq<char>>) -> int
    decreases a.len(),
{
    if a.len() == 0 {
        if b.len() == 0 { 0 } else { -1 }
    } else if b.len() == 0 {
        1
    } else if chars_order(a[0], b[0]) != 0 {
        chars_order(a[0], b[0])
    } else {
        label_order(a.drop_first(), b.drop_first())
    }
}

pub proof fn lemma_label_order_facts(a: Seq<Seq<char>>, b: Seq<Seq<char>>)
    ensures
        -1 <= label_order(a, b) <= 1,
        label_order(a, b) == -label_order(b, a),
        (label_order(a, b) == 0) <==> (a == b),
    decreases a.len(),
{
    if a.len() > 0 && b.len() > 0 {
        lemma_order_facts(a[0], b[0]);
        lemma_label_order_facts(a.drop_first(), b.drop_first());
        if a[0] == b[0] && a.drop_first() == b.drop_first() {
            assert(a =~= seq![a[0]] + a.drop_first());
            assert(b =~= seq![b[0]] + b.drop_first());
        }
        if a == b {
            assert(a.drop_first() =~= b.drop_first());
        }
    } else if a.len() == 0 && b.len() == 0 {
        assert(a =~= b);
    }
}

pub proof fn lemma_label_order_trans(a: Seq<Seq<char>>, b: Seq<Seq<char>>, c: Seq<Seq<char>>)
    requires
        label_order(a, b) < 0,
        label_order(b, c) < 0,
    ensures
        label_order(a, c) < 0,
    decreases a.len(),
{
    if a.len() > 0 && b.len() > 0 && c.len() > 0 {
        lemma_order_facts(a[0], b[0]);
        lemma_order_facts(b[0], c[0]);
        lemma_order_facts(a[0], c[0]);
        if chars_order(a[0], b[0]) < 0 && chars_order(b[0], c[0]) < 0 {
            lemma_chars_order_trans(a[0], b[0], c[0]);
        } else if chars_order(a[0], b[0]) == 0 && chars_order(b[0], c[0]) == 0 {
            lemma_label_order_trans(a.drop_first(), b.drop_first(), c.drop_first());
        }
    }
}

/// Compares two lists of names, name by name.
pub fn compare_names(a: &Vec<Literal>, b: &Vec<Literal>) -> (r: i8)
    ensures
        r as int == label_order(names(a@), names(b@)),
{
    let mut i: usize = 0;
    proof {
        assert(names(a@).skip(0) =~= names(a@));
        assert(names(b@).skip(0) =~= names(b@));
    }
    while i < a.len() && i < b.len()
        invariant
            i <= a@.len(),
            i <= b@.len(),
            label_order(names(a@), names(b@)) == label_order(names(a@).skip(i as int), names(b@).skip(i as int)),
        decreases a@.len() - i,
    {
        let c = compare_str(a[i].0.as_str(), b[i].0.as_str());
        proof {
            assert(names(a@).skip(i as int)[0] == a@[i as int]@);
            assert(names(b@).skip(i as int)[0] == b@[i as int]@);
            assert(names(a@).skip(i as int).drop_first() =~= names(a@).skip(i + 1));
            assert(names(b@).skip(i as int).drop_first() =~= names(b@).skip(i + 1));
        }
        if c != 0 {
            return c;
        }
        i = i + 1;
    }
    if i < a.len() {
        1
    } else if i < b.len() {
        -1
    } else {
        0
    }
}

/// The sorted listing of a set of proposition names.
pub open spec fn sorted_names(s: Set<Seq<char>>) -> Seq<Seq<char>> {
    choose|q: Seq<Seq<char>>| names_sorted(q) && q.to_set() == s
}

/// A sorted list is the sorted listing of its names.
pub proof fn lemma_sorted_names(q: Seq<Seq<char>>)
    requires
        names_sorted(q),
    ensures
        sorted_names(q.to_set()) == q,
{
    assert(names_sorted(q) && q.to_set() == q.to_set());
    let p = sorted_names(q.to_set());
    lemma_names_canonical(p, q);
}

} // verus!
