//! A total order on formulas (by variant, then fields, as a derived order
//! would give) and sets of formulas kept as strictly increasing vectors.
use vstd::prelude::*;

use super::expression::{NnfLtl, NnfV, Literal, nnf_size};
use crate::text::{chars_order, lemma_chars_order_range, lemma_chars_order_eq, lemma_chars_order_antisym, lemma_chars_order_trans, compare_str};

verus! {

pub open spec fn nnf_rank(f: NnfV) -> int {
    match f {
        NnfV::Lit { .. } => 0,
        NnfV::Bool(_) => 1,
        NnfV::U(_, _) => 2,
        NnfV::V(_, _) => 3,
        NnfV::Or(_, _) => 4,
        NnfV::And(_, _) => 5,
        NnfV::X(_) => 6,
    }
}

pub open spec fn bool_order(x: bool, y: bool) -> int {
    if x == y {
        0
    } else if !x {
        -1
    } else {
        1
    }
}

/// The order on formulas: first by variant (literals, booleans, until,
/// release, or, and, next), then field by field. Result `-1`, `0` or `1`.
pub open spec fn nnf_order(a: NnfV, b: NnfV) -> int
    decreases a,
{
    if nnf_rank(a) < nnf_rank(b) {
        -1
    } else if nnf_rank(a) > nnf_rank(b) {
        1
    } else {
        match a {
            NnfV::Lit { negated: n1, name: s1 } => match b {
                NnfV::Lit { negated: n2, name: s2 } => if n1 == n2 {
                    chars_order(s1, s2)
                } else {
                    bool_order(n1, n2)
                },
                _ => 0,
            },
            NnfV::Bool(x) => match b {
                NnfV::Bool(y) => bool_order(x, y),
                _ => 0,
            },
            NnfV::U(a1, a2) => match b {
                NnfV::U(b1, b2) => if nnf_order(*a1, *b1) != 0 {
                    nnf_order(*a1, *b1)
                } else {
                    nnf_order(*a2, *b2)
                },
                _ => 0,
            },
            NnfV::V(a1, a2) => match b {
                NnfV::V(b1, b2) => if nnf_order(*a1, *b1) != 0 {
                    nnf_order(*a1, *b1)
                } else {
                    nnf_order(*a2, *b2)
                },
                _ => 0,
            },
            NnfV::Or(a1, a2) => match b {
                NnfV::Or(b1, b2) => if nnf_order(*a1, *b1) != 0 {
                    nnf_order(*a1, *b1)
                } else {
                    nnf_order(*a2, *b2)
                },
                _ => 0,
            },
            NnfV::And(a1, a2) => match b {
                NnfV::And(b1, b2) => if nnf_order(*a1, *b1) != 0 {
                    nnf_order(*a1, *b1)
                } else {
                    nnf_order(*a2, *b2)
                },
                _ => 0,
            },
            NnfV::X(a1) => match b {
                NnfV::X(b1) => nnf_order(*a1, *b1),
                _ => 0,
            },
        }
    }
}

pub proof fn lemma_nnf_order_basics(a: NnfV, b: NnfV)
    ensures
        -1 <= nnf_order(a, b) <= 1,
        (nnf_order(a, b) == 0) <==> (a == b),
        nnf_order(a, b) == -nnf_order(b, a),
    decreases a,
{
    match a {
        NnfV::Lit { negated: n1, name: s1 } => match b {
            NnfV::Lit { negated: n2, name: s2 } => {
                lemma_chars_order_range(s1, s2);
                lemma_chars_order_eq(s1, s2);
                lemma_chars_order_antisym(s1, s2);
            },
            _ => {},
        },
        NnfV::Bool(_) => {},
        NnfV::U(a1, a2) => match b {
            NnfV::U(b1, b2) => {
                lemma_nnf_order_basics(*a1, *b1);
                lemma_nnf_order_basics(*a2, *b2);
            },
            _ => {},
        },
        NnfV::V(a1, a2) => match b {
            NnfV::V(b1, b2) => {
                lemma_nnf_order_basics(*a1, *b1);
                lemma_nnf_order_basics(*a2, *b2);
            },
            _ => {},
        },
        NnfV::Or(a1, a2) => match b {
            NnfV::Or(b1, b2) => {
                lemma_nnf_order_basics(*a1, *b1);
                lemma_nnf_order_basics(*a2, *b2);
            },
            _ => {},
        },
        NnfV::And(a1, a2) => match b {
            NnfV::And(b1, b2) => {
                lemma_nnf_order_basics(*a1, *b1);
                lemma_nnf_order_basics(*a2, *b2);
            },
            _ => {},
        },
        NnfV::X(a1) => match b {
            NnfV::X(b1) => {
                lemma_nnf_order_basics(*a1, *b1);
            },
            _ => {},
        },
    }
}

pub proof fn lemma_nnf_order_trans(a: NnfV, b: NnfV, c: NnfV)
    requires
        nnf_order(a, b) < 0,
        nnf_order(b, c) < 0,
    ensures
        nnf_order(a, c) < 0,
    decreases a,
{
    if nnf_rank(a) == nnf_rank(b) && nnf_rank(b) == nnf_rank(c) {
        match (a, b, c) {
            (
                NnfV::Lit { negated: n1, name: s1 },
                NnfV::Lit { negated: n2, name: s2 },
                NnfV::Lit { negated: n3, name: s3 },
            ) => {
                if n1 == n2 && n2 == n3 {
                    lemma_chars_order_trans(s1, s2, s3);
                }
            },
            (NnfV::U(a1, a2), NnfV::U(b1, b2), NnfV::U(c1, c2)) => {
                lemma_nnf_order_basics(*a1, *b1);
                lemma_nnf_order_basics(*b1, *c1);
                lemma_nnf_order_basics(*a1, *c1);
                if nnf_order(*a1, *b1) < 0 && nnf_order(*b1, *c1) < 0 {
                    lemma_nnf_order_trans(*a1, *b1, *c1);
                } else if nnf_order(*a1, *b1) == 0 && nnf_order(*b1, *c1) == 0 {
                    lemma_nnf_order_trans(*a2, *b2, *c2);
                }
            },
            (NnfV::V(a1, a2), NnfV::V(b1, b2), NnfV::V(c1, c2)) => {
                lemma_nnf_order_basics(*a1, *b1);
                lemma_nnf_order_basics(*b1, *c1);
                lemma_nnf_order_basics(*a1, *c1);
                if nnf_order(*a1, *b1) < 0 && nnf_order(*b1, *c1) < 0 {
                    lemma_nnf_order_trans(*a1, *b1, *c1);
                } else if nnf_order(*a1, *b1) == 0 && nnf_order(*b1, *c1) == 0 {
                    lemma_nnf_order_trans(*a2, *b2, *c2);
                }
            },
            (NnfV::Or(a1, a2), NnfV::Or(b1, b2), NnfV::Or(c1, c2)) => {
                lemma_nnf_order_basics(*a1, *b1);
                lemma_nnf_order_basics(*b1, *c1);
                lemma_nnf_order_basics(*a1, *c1);
                if nnf_order(*a1, *b1) < 0 && nnf_order(*b1, *c1) < 0 {
                    lemma_nnf_order_trans(*a1, *b1, *c1);
                } else if nnf_order(*a1, *b1) == 0 && nnf_order(*b1, *c1) == 0 {
                    lemma_nnf_order_trans(*a2, *b2, *c2);
                }
            },
            (NnfV::And(a1, a2), NnfV::And(b1, b2), NnfV::And(c1, c2)) => {
                lemma_nnf_order_basics(*a1, *b1);
                lemma_nnf_order_basics(*b1, *c1);
                lemma_nnf_order_basics(*a1, *c1);
                if nnf_order(*a1, *b1) < 0 && nnf_order(*b1, *c1) < 0 {
                    lemma_nnf_order_trans(*a1, *b1, *c1);
                } else if nnf_order(*a1, *b1) == 0 && nnf_order(*b1, *c1) == 0 {
                    lemma_nnf_order_trans(*a2, *b2, *c2);
                }
            },
            (NnfV::X(a1), NnfV::X(b1), NnfV::X(c1)) => {
                lemma_nnf_order_trans(*a1, *b1, *c1);
            },
            _ => {},
        }
    }
}


impl NnfLtl {
    /// Three-way comparison in the order `nnf_order`.
    pub fn compare(&self, other: &NnfLtl) -> (r: i8)
        ensures
            r as int == nnf_order(self@, other@),
        decreases nnf_size(self@),
    {
        let ra = rank_of(self);
        let rb = rank_of(other);
        if ra < rb {
            return -1;
        }
        if ra > rb {
            return 1;
        }
        match (self, other) {
            (NnfLtl::Literal { negated: n1, name: s1 }, NnfLtl::Literal { negated: n2, name: s2 }) => {
                if *n1 == *n2 {
                    compare_str(s1.0.as_str(), s2.0.as_str())
                } else if !*n1 {
                    -1
                } else {
                    1
                }
            },
            (NnfLtl::Bool(x), NnfLtl::Bool(y)) => {
                if *x == *y {
                    0
                } else if !*x {
                    -1
                } else {
                    1
                }
            },
            (NnfLtl::U(a1, a2), NnfLtl::U(b1, b2)) | (NnfLtl::V(a1, a2), NnfLtl::V(b1, b2)) | (
                NnfLtl::Or(a1, a2),
                NnfLtl::Or(b1, b2),
            ) | (NnfLtl::And(a1, a2), NnfLtl::And(b1, b2)) => {
                let c = a1.compare(b1);
                if c != 0 {
                    c
                } else {
                    a2.compare(b2)
                }
            },
            (NnfLtl::X(a1), NnfLtl::X(b1)) => a1.compare(b1),
            _ => 0,
        }
    }
}

fn rank_of(f: &NnfLtl) -> (r: u8)
    ensures
        r as int == nnf_rank(f@),
{
    match f {
        NnfLtl::Literal { .. } => 0,
        NnfLtl::Bool(_) => 1,
        NnfLtl::U(_, _) => 2,
        NnfLtl::V(_, _) => 3,
        NnfLtl::Or(_, _) => 4,
        NnfLtl::And(_, _) => 5,
        NnfLtl::X(_) => 6,
    }
}

/// The abstract values of a sequence of formulas.
pub open spec fn views(s: Seq<NnfLtl>) -> Seq<NnfV> {
    s.map_values(|f: NnfLtl| f@)
}

/// Strictly increasing in `nnf_order`: the canonical listing of a set.
pub open spec fn strictly_sorted(s: Seq<NnfV>) -> bool {
    forall|i: int, j: int| 0 <= i < j < s.len() ==> nnf_order(s[i], s[j]) < 0
}

/// The set of formulas held by a vector.
pub open spec fn fset(v: Seq<NnfLtl>) -> Set<NnfV> {
    views(v).to_set()
}

/// A vector that is the canonical listing of its set.
pub open spec fn fset_wf(v: Seq<NnfLtl>) -> bool {
    strictly_sorted(views(v))
}

/// Sum of the sizes of the formulas of a sequence.
pub open spec fn size_sum(s: Seq<NnfV>) -> nat
    decreases s.len(),
{
    if s.len() == 0 {
        0
    } else {
        nnf_size(s[0]) + size_sum(s.drop_first())
    }
}

pub proof fn lemma_size_sum_concat(a: Seq<NnfV>, b: Seq<NnfV>)
    ensures
        size_sum(a + b) == size_sum(a) + size_sum(b),
    decreases a.len(),
{
    if a.len() == 0 {
        assert(a + b =~= b);
    } else {
        assert((a + b).drop_first() =~= a.drop_first() + b);
        lemma_size_sum_concat(a.drop_first(), b);
    }
}

pub proof fn lemma_size_sum_insert(s: Seq<NnfV>, i: int, x: NnfV)
    requires
        0 <= i <= s.len(),
    ensures
        size_sum(s.insert(i, x)) == size_sum(s) + nnf_size(x),
{
    assert(s.insert(i, x) =~= s.take(i) + (seq![x] + s.skip(i)));
    assert(s =~= s.take(i) + s.skip(i));
    lemma_size_sum_concat(s.take(i), seq![x] + s.skip(i));
    lemma_size_sum_concat(seq![x], s.skip(i));
    lemma_size_sum_concat(s.take(i), s.skip(i));
    assert(seq![x].drop_first() =~= Seq::<NnfV>::empty());
    assert(size_sum(Seq::<NnfV>::empty()) == 0);
    assert(size_sum(seq![x]) == nnf_size(x) + size_sum(seq![x].drop_first()));
}

pub proof fn lemma_size_sum_push(s: Seq<NnfV>, x: NnfV)
    ensures
        size_sum(s.push(x)) == size_sum(s) + nnf_size(x),
{
    lemma_size_sum_insert(s, s.len() as int, x);
    assert(s.insert(s.len() as int, x) =~= s.push(x));
}

/// A strictly sorted sequence lists each element once, and is determined by
/// its set.
pub proof fn lemma_sorted_canonical(a: Seq<NnfV>, b: Seq<NnfV>)
    requires
        strictly_sorted(a),
        strictly_sorted(b),
        a.to_set() == b.to_set(),
    ensures
        a == b,
    decreases a.len(),
{
    if a.len() == 0 {
        if b.len() > 0 {
            assert(b.to_set().contains(b[0]));
        }
        assert(a =~= b);
    } else {
        assert(a.to_set().contains(a[0]));
        assert(b.len() > 0);
        assert(b.to_set().contains(b[0]));
        let i = choose|i: int| 0 <= i < b.len() && b[i] == a[0];
        let j = choose|j: int| 0 <= j < a.len() && a[j] == b[0];
        lemma_nnf_order_basics(a[0], b[0]);
        if i > 0 {
            assert(nnf_order(b[0], b[i]) < 0);
            if j > 0 {
                assert(nnf_order(a[0], a[j]) < 0);
            }
        }
        assert(a[0] == b[0]);
        let a1 = a.drop_first();
        let b1 = b.drop_first();
        assert(a1.to_set() =~= b1.to_set()) by {
            assert forall|x: NnfV| a1.to_set().contains(x) implies b1.to_set().contains(x) by {
                let k = choose|k: int| 0 <= k < a1.len() && a1[k] == x;
                assert(a.to_set().contains(x));
                assert(nnf_order(a[0], a[k + 1]) < 0);
                lemma_nnf_order_basics(a[0], x);
                let m = choose|m: int| 0 <= m < b.len() && b[m] == x;
                assert(m != 0);
                assert(b1[m - 1] == x);
            }
            assert forall|x: NnfV| b1.to_set().contains(x) implies a1.to_set().contains(x) by {
                let k = choose|k: int| 0 <= k < b1.len() && b1[k] == x;
                assert(b.to_set().contains(x));
                assert(nnf_order(b[0], b[k + 1]) < 0);
                lemma_nnf_order_basics(b[0], x);
                let m = choose|m: int| 0 <= m < a.len() && a[m] == x;
                assert(m != 0);
                assert(a1[m - 1] == x);
            }
        }
        lemma_sorted_canonical(a1, b1);
        assert(a1.len() == b1.len());
        assert(b.len() == a.len());
        assert(a =~= b) by {
            assert forall|k: int| 0 <= k < a.len() implies a[k] == b[k] by {
                if k > 0 {
                    assert(a[k] == a1[k - 1]);
                    assert(b[k] == b1[k - 1]);
                }
            }
        }
    }
}

/// Whether `f` is one of the formulas of `v`.
pub fn fset_contains(v: &Vec<NnfLtl>, f: &NnfLtl) -> (r: bool)
    ensures
        r == fset(v@).contains(f@),
{
    let mut i: usize = 0;
    while i < v.len()
        invariant
            i <= v@.len(),
            forall|k: int| 0 <= k < i ==> v@[k]@ != f@,
        decreases v@.len() - i,
    {
        let c = v[i].compare(f);
        proof {
            lemma_nnf_order_basics(v@[i as int]@, f@);
        }
        if c == 0 {
            assert(views(v@)[i as int] == f@);
            return true;
        }
        i = i + 1;
    }
    assert(!views(v@).contains(f@)) by {
        if views(v@).contains(f@) {
            let k = choose|k: int| 0 <= k < views(v@).len() && views(v@)[k] == f@;
            assert(v@[k]@ == f@);
        }
    }
    false
}

/// Adds `f` to the set held by `v`, keeping `v` strictly sorted.
pub fn fset_insert(v: &mut Vec<NnfLtl>, f: NnfLtl)
    requires
        fset_wf(old(v)@),
    ensures
        fset_wf(final(v)@),
        fset(final(v)@) == fset(old(v)@).insert(f@),
        size_sum(views(final(v)@)) <= size_sum(views(old(v)@)) + nnf_size(f@),
{
    let mut i: usize = 0;
    while i < v.len()
        invariant
            i <= v@.len(),
            v@ == old(v)@,
            forall|k: int| 0 <= k < i ==> nnf_order(v@[k]@, f@) < 0,
        ensures
            i <= v@.len(),
            v@ == old(v)@,
            forall|k: int| 0 <= k < i ==> nnf_order(v@[k]@, f@) < 0,
            i < v@.len() ==> nnf_order(v@[i as int]@, f@) >= 0,
        decreases v@.len() - i,
    {
        let c = v[i].compare(&f);
        if c >= 0 {
            break;
        }
        i = i + 1;
    }
    let ghost s = views(v@);
    if i < v.len() {
        let c = v[i].compare(&f);
        if c == 0 {
            proof {
                lemma_nnf_order_basics(v@[i as int]@, f@);
                assert(s[i as int] == f@);
                assert(s.to_set().insert(f@) =~= s.to_set());
            }
            return;
        }
    }
    v.insert(i, f);
    proof {
        let t = views(v@);
        assert(t =~= s.insert(i as int, f@));
        lemma_size_sum_insert(s, i as int, f@);
        assert forall|a: int, b: int| 0 <= a < b < t.len() implies nnf_order(t[a], t[b]) < 0 by {
            if i < s.len() {
                assert(nnf_order(s[i as int], f@) >= 0);
                lemma_nnf_order_basics(s[i as int], f@);
            }
            if a < i && b == i {
            } else if a < i && b > i {
                assert(nnf_order(s[a], f@) < 0);
                if b - 1 > a {
                    assert(nnf_order(s[a], s[b - 1]) < 0);
                }
            } else if a == i && b > i {
                if b - 1 > i {
                    assert(nnf_order(s[i as int], s[b - 1]) < 0);
                    lemma_nnf_order_trans(f@, s[i as int], s[b - 1]);
                }
            } else if a > i {
                assert(nnf_order(s[a - 1], s[b - 1]) < 0);
            }
        }
        assert(t.to_set() =~= s.to_set().insert(f@)) by {
            assert forall|x: NnfV| t.to_set().contains(x) implies s.to_set().insert(f@).contains(x) by {
                let k = choose|k: int| 0 <= k < t.len() && t[k] == x;
                if k < i {
                    assert(s[k] == x);
                } else if k > i {
                    assert(s[k - 1] == x);
                }
            }
            assert forall|x: NnfV| s.to_set().insert(f@).contains(x) implies t.to_set().contains(x) by {
                if x == f@ {
                    assert(t[i as int] == x);
                } else {
                    let k = choose|k: int| 0 <= k < s.len() && s[k] == x;
                    if k < i {
                        assert(t[k] == x);
                    } else {
                        assert(t[k + 1] == x);
                    }
                }
            }
        }
    }
}

/// A copy of a set of formulas.
pub fn fset_clone(v: &Vec<NnfLtl>) -> (r: Vec<NnfLtl>)
    ensures
        views(r@) == views(v@),
{
    let mut r: Vec<NnfLtl> = Vec::new();
    let mut i: usize = 0;
    while i < v.len()
        invariant
            i <= v@.len(),
            views(r@) == views(v@).take(i as int),
        decreases v@.len() - i,
    {
        let ghost before = r@;
        let x = v[i].clone();
        r.push(x);
        proof {
            assert(r@ == before.push(x));
            before.lemma_push_map_commute(|f: NnfLtl| f@, x);
            views(v@).lemma_take_succ_push(i as int);
            assert(views(r@) =~= views(v@).take(i + 1));
        }
        i = i + 1;
    }
    assert(views(v@).take(i as int) =~= views(v@));
    r
}

/// The union of two sets of formulas.
pub fn fset_union(a: &Vec<NnfLtl>, b: &Vec<NnfLtl>) -> (r: Vec<NnfLtl>)
    requires
        fset_wf(a@),
        fset_wf(b@),
    ensures
        fset_wf(r@),
        fset(r@) == fset(a@).union(fset(b@)),
        size_sum(views(r@)) <= size_sum(views(a@)) + size_sum(views(b@)),
{
    let mut r = fset_clone(a);
    let mut i: usize = 0;
    proof {
        assert(views(b@).skip(0) =~= views(b@));
        assert(views(b@).take(0).to_set() =~= Set::<NnfV>::empty());
        assert(fset(r@) =~= fset(a@).union(views(b@).take(0).to_set()));
    }
    while i < b.len()
        invariant
            i <= b@.len(),
            fset_wf(r@),
            fset(r@) == fset(a@).union(views(b@).take(i as int).to_set()),
            size_sum(views(r@)) + size_sum(views(b@).skip(i as int)) <= size_sum(views(a@))
                + size_sum(views(b@)),
        decreases b@.len() - i,
    {
        proof {
            if i == 0 {
                assert(views(b@).skip(0) =~= views(b@));
            }
            assert(views(b@).skip(i as int).drop_first() =~= views(b@).skip(i + 1));
        }
        fset_insert(&mut r, b[i].clone());
        proof {
            views(b@).lemma_take_succ_push(i as int);
            views(b@).take(i as int).lemma_push_to_set_commute(b@[i as int]@);
            assert(fset(a@).union(views(b@).take(i + 1).to_set()) =~= fset(a@).union(
                views(b@).take(i as int).to_set(),
            ).insert(b@[i as int]@));
        }
        i = i + 1;
    }
    proof {
        if b.len() == 0 {
            assert(views(b@).skip(0) =~= views(b@));
        }
        assert(views(b@).take(i as int) =~= views(b@));
    }
    r
}

/// The formulas of `a` that are not in `b`.
pub fn fset_minus(a: &Vec<NnfLtl>, b: &Vec<NnfLtl>) -> (r: Vec<NnfLtl>)
    requires
        fset_wf(a@),
    ensures
        fset_wf(r@),
        fset(r@) == fset(a@).difference(fset(b@)),
        size_sum(views(r@)) <= size_sum(views(a@)),
{
    let mut r: Vec<NnfLtl> = Vec::new();
    let mut i: usize = 0;
    let ghost s = views(a@);
    proof {
        assert(s.skip(0) =~= s);
        assert(s.take(0).to_set() =~= Set::<NnfV>::empty());
        assert(fset(r@) =~= s.take(0).to_set().difference(fset(b@)));
        assert(size_sum(views(r@)) == 0);
    }
    while i < a.len()
        invariant
            i <= a@.len(),
            s == views(a@),
            strictly_sorted(s),
            fset_wf(r@),
            forall|k: int| 0 <= k < r@.len() ==> (exists|m: int| 0 <= m < i && s[m] == #[trigger] views(r@)[k]),
            fset(r@) == s.take(i as int).to_set().difference(fset(b@)),
            size_sum(views(r@)) + size_sum(s.skip(i as int)) <= size_sum(s),
        decreases a@.len() - i,
    {
        proof {
            if i == 0 {
                assert(s.skip(0) =~= s);
            }
            assert(s.skip(i as int).drop_first() =~= s.skip(i + 1));
        }
        let ghost before = views(r@);
        if !fset_contains(b, &a[i]) {
            let ghost rb = r@;
            let x = a[i].clone();
            r.push(x);
            proof {
                rb.lemma_push_map_commute(|f: NnfLtl| f@, x);
                assert(views(r@) =~= before.push(s[i as int]));
                before.lemma_push_to_set_commute(s[i as int]);
                lemma_size_sum_push(before, s[i as int]);
                assert forall|x: int, y: int| 0 <= x < y < views(r@).len() implies nnf_order(
                    views(r@)[x],
                    views(r@)[y],
                ) < 0 by {
                    if y == views(r@).len() - 1 {
                        let m = choose|m: int| 0 <= m < i && s[m] == #[trigger] before[x];
                        assert(before[x] == views(r@)[x]);
                    }
                }
                assert forall|k: int| 0 <= k < r@.len() implies (exists|m: int| 0 <= m < i + 1 && s[m] == #[trigger] views(r@)[k]) by {
                    if k < before.len() {
                        assert(views(r@)[k] == before[k]);
                        let m = choose|m: int| 0 <= m < i && s[m] == #[trigger] before[k];
                    } else {
                        assert(s[i as int] == views(r@)[k]);
                    }
                }
            }
        } else {
            proof {
                assert forall|k: int| 0 <= k < r@.len() implies (exists|m: int| 0 <= m < i + 1 && s[m] == #[trigger] views(r@)[k]) by {
                    let m = choose|m: int| 0 <= m < i && s[m] == #[trigger] views(r@)[k];
                }
            }
        }
        proof {
            s.lemma_take_succ_push(i as int);
            s.take(i as int).lemma_push_to_set_commute(s[i as int]);
            assert(fset(r@) =~= s.take(i + 1).to_set().difference(fset(b@)));
        }
        i = i + 1;
    }
    proof {
        if a.len() == 0 {
            assert(s.skip(0) =~= s);
        }
        assert(s.take(i as int) =~= s);
    }
    r
}

/// Whether two sets of formulas are equal.
pub fn fset_equal(a: &Vec<NnfLtl>, b: &Vec<NnfLtl>) -> (r: bool)
    ensures
        r == (views(a@) == views(b@)),
{
    if a.len() != b.len() {
        assert(views(a@).len() != views(b@).len());
        return false;
    }
    let mut i: usize = 0;
    while i < a.len()
        invariant
            i <= a@.len(),
            a@.len() == b@.len(),
            forall|k: int| 0 <= k < i ==> a@[k]@ == b@[k]@,
        decreases a@.len() - i,
    {
        let c = a[i].compare(&b[i]);
        proof {
            lemma_nnf_order_basics(a@[i as int]@, b@[i as int]@);
        }
        if c != 0 {
            assert(views(a@)[i as int] != views(b@)[i as int]);
            return false;
        }
        i = i + 1;
    }
    assert(views(a@) =~= views(b@));
    true
}

} // verus!
