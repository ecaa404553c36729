//! The security lattice of an information-flow analysis: the flows between
//! security classes that a set of rules allows, closed under transitivity.
use vstd::prelude::*;
use vstd::set_lib::*;
use vstd::arithmetic::div_mod::lemma_fundamental_div_mod_converse;

use crate::gcl::ast::Flow;
use crate::text::{
    chars_order, compare_str, lemma_chars_order_antisym, lemma_chars_order_eq,
    lemma_chars_order_range, lemma_chars_order_trans,
};

verus! {

/// A flow as a pair of names.
pub open spec fn flow_key(f: Flow<String>) -> (Seq<char>, Seq<char>) {
    (f.from@, f.into@)
}

/// The pairs of names of a sequence of flows.
pub open spec fn flow_keys(v: Seq<Flow<String>>) -> Seq<(Seq<char>, Seq<char>)> {
    v.map_values(|f: Flow<String>| flow_key(f))
}

/// Flows ordered by source, then by target.
pub open spec fn pair_order(a: (Seq<char>, Seq<char>), b: (Seq<char>, Seq<char>)) -> int {
    if chars_order(a.0, b.0) != 0 {
        chars_order(a.0, b.0)
    } else {
        chars_order(a.1, b.1)
    }
}

/// The pairs are in strictly increasing order.
pub open spec fn pairs_sorted(s: Seq<(Seq<char>, Seq<char>)>) -> bool {
    forall|i: int, j: int| 0 <= i < j < s.len() ==> pair_order(#[trigger] s[i], #[trigger] s[j]) < 0
}

/// Step `i` of `p` is a pair of `r`.
pub open spec fn path_step(r: Set<(Seq<char>, Seq<char>)>, p: Seq<Seq<char>>, i: int) -> bool {
    r.contains((p[i], p[i + 1]))
}

/// `p` is a path of at least one step, each step a pair of `r`.
pub open spec fn is_path(r: Set<(Seq<char>, Seq<char>)>, p: Seq<Seq<char>>) -> bool {
    &&& p.len() >= 2
    &&& forall|i: int| 0 <= i < p.len() - 1 ==> #[trigger] path_step(r, p, i)
}

/// Information may flow from `a` to `c` through the pairs of `r`.
pub open spec fn flows_to(r: Set<(Seq<char>, Seq<char>)>, a: Seq<char>, c: Seq<char>) -> bool {
    exists|p: Seq<Seq<char>>| is_path(r, p) && p[0] == a && p.last() == c
}

/// The transitive closure of `r`.
pub open spec fn closure(r: Set<(Seq<char>, Seq<char>)>) -> Set<(Seq<char>, Seq<char>)> {
    Set::new(|f: (Seq<char>, Seq<char>)| flows_to(r, f.0, f.1))
}

/// Every flow that can be composed from two flows of `a` is in `a`.
pub open spec fn transitive(a: Set<(Seq<char>, Seq<char>)>) -> bool {
    forall|x: (Seq<char>, Seq<char>), y: (Seq<char>, Seq<char>)|
        #![trigger a.contains(x), a.contains(y)]
        a.contains(x) && a.contains(y) && x.1 == y.0 ==> a.contains((x.0, y.1))
}

proof fn lemma_pair_order(a: (Seq<char>, Seq<char>), b: (Seq<char>, Seq<char>))
    ensures
        -1 <= pair_order(a, b) <= 1,
        pair_order(a, b) == -pair_order(b, a),
        (pair_order(a, b) == 0) <==> (a == b),
{
    lemma_chars_order_range(a.0, b.0);
    lemma_chars_order_range(a.1, b.1);
    lemma_chars_order_antisym(a.0, b.0);
    lemma_chars_order_antisym(a.1, b.1);
    lemma_chars_order_eq(a.0, b.0);
    lemma_chars_order_eq(a.1, b.1);
}

proof fn lemma_pair_order_trans(
    a: (Seq<char>, Seq<char>),
    b: (Seq<char>, Seq<char>),
    c: (Seq<char>, Seq<char>),
)
    requires
        pair_order(a, b) < 0,
        pair_order(b, c) < 0,
    ensures
        pair_order(a, c) < 0,
{
    lemma_chars_order_eq(a.0, b.0);
    lemma_chars_order_eq(b.0, c.0);
    lemma_chars_order_eq(a.0, c.0);
    lemma_chars_order_range(a.0, b.0);
    lemma_chars_order_range(b.0, c.0);
    if chars_order(a.0, b.0) < 0 && chars_order(b.0, c.0) < 0 {
        lemma_chars_order_trans(a.0, b.0, c.0);
    } else if chars_order(a.0, b.0) < 0 {
        assert(b.0 == c.0);
    } else if chars_order(b.0, c.0) < 0 {
        assert(a.0 == b.0);
    } else {
        assert(a.0 == b.0 && b.0 == c.0);
        lemma_chars_order_trans(a.1, b.1, c.1);
    }
}

/// A flow of `r` is a path of one step.
proof fn lemma_step_flows(r: Set<(Seq<char>, Seq<char>)>, a: Seq<char>, c: Seq<char>)
    requires
        r.contains((a, c)),
    ensures
        flows_to(r, a, c),
{
    let p = seq![a, c];
    assert(path_step(r, p, 0));
    assert(is_path(r, p) && p[0] == a && p.last() == c);
}

/// Paths compose.
proof fn lemma_flows_compose(r: Set<(Seq<char>, Seq<char>)>, a: Seq<char>, b: Seq<char>, c: Seq<char>)
    requires
        flows_to(r, a, b),
        flows_to(r, b, c),
    ensures
        flows_to(r, a, c),
{
    let p = choose|p: Seq<Seq<char>>| is_path(r, p) && p[0] == a && p.last() == b;
    let q = choose|q: Seq<Seq<char>>| is_path(r, q) && q[0] == b && q.last() == c;
    let pq = p + q.skip(1);
    assert forall|i: int| 0 <= i < pq.len() - 1 implies #[trigger] path_step(r, pq, i) by {
        if i < p.len() - 1 {
            assert(path_step(r, p, i));
            assert(pq[i] == p[i] && pq[i + 1] == p[i + 1]);
        } else if i == p.len() - 1 {
            assert(path_step(r, q, 0));
            assert(pq[i] == q[0] && pq[i + 1] == q[1]);
        } else {
            let k = i - p.len() + 1;
            assert(path_step(r, q, k));
            assert(pq[i] == q[k] && pq[i + 1] == q[k + 1]);
        }
    }
    assert(pq.last() == q.last());
    assert(is_path(r, pq) && pq[0] == a && pq.last() == c);
}

/// A transitive set that holds `r` holds its closure.
proof fn lemma_closed_holds_closure(
    r: Set<(Seq<char>, Seq<char>)>,
    a: Set<(Seq<char>, Seq<char>)>,
    p: Seq<Seq<char>>,
)
    requires
        r.subset_of(a),
        transitive(a),
        is_path(r, p),
    ensures
        a.contains((p[0], p.last())),
    decreases p.len(),
{
    assert(path_step(r, p, 0));
    if p.len() > 2 {
        let q = p.skip(1);
        assert forall|i: int| 0 <= i < q.len() - 1 implies #[trigger] path_step(r, q, i) by {
            assert(path_step(r, p, i + 1));
            assert(q[i] == p[i + 1] && q[i + 1] == p[i + 2]);
        }
        lemma_closed_holds_closure(r, a, q);
        assert(a.contains((p[0], p[1])));
        assert(a.contains((q[0], q.last())));
    }
}

/// The closure of a set of flows is transitive.
pub proof fn lemma_closure_transitive(r: Set<(Seq<char>, Seq<char>)>)
    ensures
        transitive(closure(r)),
        r.subset_of(closure(r)),
{
    assert forall|x: (Seq<char>, Seq<char>), y: (Seq<char>, Seq<char>)|
        closure(r).contains(x) && closure(r).contains(y) && x.1 == y.0 implies closure(r).contains(
        (x.0, y.1),
    ) by {
        lemma_flows_compose(r, x.0, x.1, y.1);
    }
    assert forall|x: (Seq<char>, Seq<char>)| r.contains(x) implies closure(r).contains(x) by {
        lemma_step_flows(r, x.0, x.1);
    }
}

/// The closure of a set of flows is the least transitive set that holds it.
pub proof fn lemma_closure_least(r: Set<(Seq<char>, Seq<char>)>, a: Set<(Seq<char>, Seq<char>)>)
    requires
        r.subset_of(a),
        transitive(a),
    ensures
        closure(r).subset_of(a),
{
    assert forall|x: (Seq<char>, Seq<char>)| closure(r).contains(x) implies a.contains(x) by {
        let p = choose|p: Seq<Seq<char>>| is_path(r, p) && p[0] == x.0 && p.last() == x.1;
        lemma_closed_holds_closure(r, a, p);
    }
}

/// A list of distinct pairs over the names `ends` has at most `|ends|²`
/// pairs.
proof fn lemma_pairs_bound(keys: Seq<(Seq<char>, Seq<char>)>, ends: Seq<Seq<char>>)
    requires
        keys.no_duplicates(),
        forall|i: int|
            0 <= i < keys.len() ==> ends.contains(#[trigger] keys[i].0) && ends.contains(keys[i].1),
    ensures
        keys.len() <= ends.len() * ends.len(),
{
    let m = ends.len() as int;
    if keys.len() == 0 {
        assert(0 <= m * m) by (nonlinear_arith);
        return;
    }
    assert(ends.contains(keys[0].0));
    assert(m > 0);
    assert(0 <= m * m) by (nonlinear_arith);
    let range = set_int_range(0, m * m);
    lemma_int_range(0, m * m);
    let g = |k: int| (ends[k / m], ends[k % m]);
    let img = range.map(g);
    lemma_map_size_bound(range, img, g);
    assert forall|x: (Seq<char>, Seq<char>)| keys.to_set().contains(x) implies img.contains(x) by {
        let t = choose|t: int| 0 <= t < keys.len() && keys[t] == x;
        assert(ends.contains(keys[t].0));
        assert(ends.contains(keys[t].1));
        let i = choose|i: int| 0 <= i < ends.len() && ends[i] == x.0;
        let j = choose|j: int| 0 <= j < ends.len() && ends[j] == x.1;
        let k = i * m + j;
        assert(0 <= k < m * m) by (nonlinear_arith)
            requires
                0 <= i < m,
                0 <= j < m,
                k == i * m + j,
        ;
        lemma_fundamental_div_mod_converse(k, m, i, j);
        assert(range.contains(k));
        assert(g(k) == x);
    }
    lemma_len_subset(keys.to_set(), img);
    keys.unique_seq_to_set();
}

/// The names at the ends of the rules.
pub open spec fn rule_ends(rules: Seq<Flow<String>>) -> Seq<Seq<char>> {
    rules.map_values(|f: Flow<String>| f.from@) + rules.map_values(|f: Flow<String>| f.into@)
}

/// The flows that the rules allow: the transitive closure of the rules.
pub struct SecurityLattice {
    pub allowed: Vec<Flow<String>>,
}

fn copy_flow(f: &Flow<String>) -> (r: Flow<String>)
    ensures
        flow_key(r) == flow_key(*f),
{
    Flow { from: f.from.clone(), into: f.into.clone() }
}

fn compare_flows(a: &Flow<String>, b: &Flow<String>) -> (r: i8)
    ensures
        r as int == pair_order(flow_key(*a), flow_key(*b)),
{
    let c = compare_str(a.from.as_str(), b.from.as_str());
    if c != 0 {
        c
    } else {
        compare_str(a.into.as_str(), b.into.as_str())
    }
}

/// Whether the sorted list holds the flow.
fn flows_contain(v: &Vec<Flow<String>>, f: &Flow<String>) -> (r: bool)
    ensures
        r == flow_keys(v@).contains(flow_key(*f)),
{
    let mut i: usize = 0;
    while i < v.len()
        invariant
            i <= v@.len(),
            forall|j: int| 0 <= j < i ==> flow_keys(v@)[j] != flow_key(*f),
        decreases v@.len() - i,
    {
        if compare_flows(&v[i], f) == 0 {
            proof {
                lemma_pair_order(flow_key(v@[i as int]), flow_key(*f));
                assert(flow_keys(v@)[i as int] == flow_key(*f));
            }
            return true;
        }
        proof {
            lemma_pair_order(flow_key(v@[i as int]), flow_key(*f));
        }
        i = i + 1;
    }
    false
}

/// Inserts the flow into the sorted list, where it is not there yet.
fn flows_insert(v: &mut Vec<Flow<String>>, f: Flow<String>)
    requires
        pairs_sorted(flow_keys(old(v)@)),
    ensures
        pairs_sorted(flow_keys(final(v)@)),
        flow_keys(final(v)@).to_set() == flow_keys(old(v)@).to_set().insert(flow_key(f)),
{
    let ghost k = flow_key(f);
    let ghost old_keys = flow_keys(v@);
    let mut i: usize = 0;
    let mut go = true;
    while go && i < v.len()
        invariant
            i <= v@.len(),
            k == flow_key(f),
            v@ == old(v)@,
            old_keys == flow_keys(v@),
            pairs_sorted(old_keys),
            forall|j: int| 0 <= j < i ==> pair_order(#[trigger] old_keys[j], k) < 0,
            !go ==> i < v@.len() && pair_order(old_keys[i as int], k) >= 0,
        decreases v@.len() - i + (if go { 1int } else { 0int }),
    {
        assert(old_keys[i as int] == flow_key(v@[i as int]));
        if compare_flows(&v[i], &f) < 0 {
            i = i + 1;
        } else {
            go = false;
        }
    }
    if i < v.len() && compare_flows(&v[i], &f) == 0 {
        proof {
            lemma_pair_order(old_keys[i as int], k);
            assert(old_keys[i as int] == k);
            assert(old_keys.contains(k));
            assert(old_keys.to_set().insert(k) =~= old_keys.to_set());
        }
        return;
    }
    proof {
        if i < v@.len() {
            lemma_pair_order(old_keys[i as int], k);
            assert(pair_order(k, old_keys[i as int]) < 0);
        }
    }
    v.insert(i, f);
    proof {
        let nk = flow_keys(v@);
        assert(nk =~= old_keys.insert(i as int, k));
        assert forall|a: int, b: int| 0 <= a < b < nk.len() implies pair_order(
            #[trigger] nk[a],
            #[trigger] nk[b],
        ) < 0 by {
            if b < i {
            } else if a < i && b == i {
            } else if a < i && b > i {
                assert(nk[b] == old_keys[b - 1]);
                if i < old_keys.len() {
                    lemma_pair_order(old_keys[i as int], k);
                    if b - 1 > i {
                        lemma_pair_order_trans(k, old_keys[i as int], old_keys[b - 1]);
                    }
                }
                lemma_pair_order_trans(nk[a], k, nk[b]);
            } else if a == i {
                assert(nk[b] == old_keys[b - 1]);
                lemma_pair_order(old_keys[i as int], k);
                if b - 1 > i {
                    lemma_pair_order_trans(k, old_keys[i as int], old_keys[b - 1]);
                }
            } else {
                assert(nk[a] == old_keys[a - 1]);
                assert(nk[b] == old_keys[b - 1]);
            }
        }
        assert(nk.to_set() =~= old_keys.to_set().insert(k)) by {
            assert forall|x: (Seq<char>, Seq<char>)| nk.to_set().contains(x) implies old_keys.to_set().insert(
                k,
            ).contains(x) by {
                let t = choose|t: int| 0 <= t < nk.len() && nk[t] == x;
                if t < i {
                    assert(old_keys[t] == x);
                } else if t > i {
                    assert(old_keys[t - 1] == x);
                }
            }
            assert forall|x: (Seq<char>, Seq<char>)| old_keys.to_set().insert(k).contains(x) implies nk.to_set().contains(
                x,
            ) by {
                if x == k {
                    assert(nk[i as int] == k);
                } else {
                    let t = choose|t: int| 0 <= t < old_keys.len() && old_keys[t] == x;
                    if t < i {
                        assert(nk[t] == x);
                    } else {
                        assert(nk[t + 1] == x);
                    }
                }
            }
        }
    }
}

proof fn lemma_closure_ends(
    rs: Set<(Seq<char>, Seq<char>)>,
    ends: Seq<Seq<char>>,
    x: (Seq<char>, Seq<char>),
)
    requires
        forall|y: (Seq<char>, Seq<char>)| rs.contains(y) ==> ends.contains(y.0) && ends.contains(y.1),
        closure(rs).contains(x),
    ensures
        ends.contains(x.0),
        ends.contains(x.1),
{
    let p = choose|p: Seq<Seq<char>>| is_path(rs, p) && p[0] == x.0 && p.last() == x.1;
    assert(path_step(rs, p, 0));
    assert(path_step(rs, p, p.len() - 2));
}

proof fn lemma_keys_bound(v: Seq<Flow<String>>, rs: Set<(Seq<char>, Seq<char>)>, ends: Seq<Seq<char>>)
    requires
        forall|y: (Seq<char>, Seq<char>)| rs.contains(y) ==> ends.contains(y.0) && ends.contains(y.1),
        flow_keys(v).to_set().subset_of(closure(rs)),
        pairs_sorted(flow_keys(v)),
    ensures
        v.len() <= ends.len() * ends.len(),
{
    assert forall|t: int| 0 <= t < flow_keys(v).len() implies ends.contains(
        #[trigger] flow_keys(v)[t].0,
    ) && ends.contains(flow_keys(v)[t].1) by {
        lemma_in_keys(v, t);
        lemma_closure_ends(rs, ends, flow_keys(v)[t]);
    }
    lemma_sorted_no_dup(flow_keys(v));
    lemma_pairs_bound(flow_keys(v), ends);
}

proof fn lemma_in_keys(v: Seq<Flow<String>>, i: int)
    requires
        0 <= i < v.len(),
    ensures
        flow_keys(v).to_set().contains(flow_key(v[i])),
        flow_keys(v)[i] == flow_key(v[i]),
{
    assert(flow_keys(v)[i] == flow_key(v[i]));
    assert(flow_keys(v).contains(flow_key(v[i])));
}

proof fn lemma_sorted_no_dup(s: Seq<(Seq<char>, Seq<char>)>)
    requires
        pairs_sorted(s),
    ensures
        s.no_duplicates(),
{
    assert forall|i: int, j: int| 0 <= i < s.len() && 0 <= j < s.len() && i != j implies s[i]
        != s[j] by {
        lemma_pair_order(s[i], s[j]);
        if i < j {
            assert(pair_order(s[i], s[j]) < 0);
        } else {
            assert(pair_order(s[j], s[i]) < 0);
        }
    }
}

impl SecurityLattice {
    /// The lattice of the rules: a flow is allowed where a chain of rules
    /// leads from its source to its target.
    pub fn new(rules: &[Flow<String>]) -> (r: Self)
        ensures
            pairs_sorted(flow_keys(r.allowed@)),
            flow_keys(r.allowed@).to_set() == closure(flow_keys(rules@).to_set()),
    {
        let ghost rs = flow_keys(rules@).to_set();
        let ghost ends = rule_ends(rules@);
        let mut allowed: Vec<Flow<String>> = Vec::new();
        let mut i: usize = 0;
        while i < rules.len()
            invariant
                i <= rules@.len(),
                pairs_sorted(flow_keys(allowed@)),
                flow_keys(allowed@).to_set() == flow_keys(rules@.take(i as int)).to_set(),
            decreases rules@.len() - i,
        {
            flows_insert(&mut allowed, copy_flow(&rules[i]));
            proof {
                assert(flow_keys(rules@.take(i + 1)) =~= flow_keys(rules@.take(i as int)).push(
                    flow_key(rules@[i as int]),
                ));
                flow_keys(rules@.take(i as int)).lemma_push_to_set_commute(flow_key(rules@[i as int]));
            }
            i = i + 1;
        }
        proof {
            assert(rules@.take(i as int) =~= rules@);
            lemma_closure_transitive(rs);
            assert forall|x: (Seq<char>, Seq<char>)| rs.contains(x) implies ends.contains(x.0)
                && ends.contains(x.1) by {
                let t = choose|t: int| 0 <= t < flow_keys(rules@).len() && flow_keys(rules@)[t] == x;
                assert(ends[t] == x.0);
                assert(ends[rules@.len() + t] == x.1);
            }
        }
        let mut last_len: usize = 0;
        loop
            invariant
                rs == flow_keys(rules@).to_set(),
                ends == rule_ends(rules@),
                forall|x: (Seq<char>, Seq<char>)| rs.contains(x) ==> ends.contains(x.0) && ends.contains(x.1),
                pairs_sorted(flow_keys(allowed@)),
                rs.subset_of(flow_keys(allowed@).to_set()),
                flow_keys(allowed@).to_set().subset_of(closure(rs)),
                last_len <= allowed@.len(),
            ensures
                pairs_sorted(flow_keys(allowed@)),
                flow_keys(allowed@).to_set() == closure(flow_keys(rules@).to_set()),
            decreases ends.len() * ends.len() - last_len,
        {
            let ghost a = flow_keys(allowed@).to_set();
            let ghost old_allowed = allowed@;
            let ghost len_before = allowed@.len();
            proof {
                lemma_keys_bound(allowed@, rs, ends);
            }
            let mut to_add: Vec<Flow<String>> = Vec::new();
            let mut fi: usize = 0;
            while fi < allowed.len()
                invariant
                    fi <= allowed@.len(),
                    old_allowed == allowed@,
                    a == flow_keys(allowed@).to_set(),
                    a.subset_of(closure(rs)),
                    pairs_sorted(flow_keys(to_add@)),
                    flow_keys(to_add@).to_set().subset_of(closure(rs)),
                    flow_keys(to_add@).to_set().disjoint(a),
                    forall|x: int, y: int|
                        0 <= x < fi && 0 <= y < allowed@.len() && allowed@[x].into@
                            == allowed@[y].from@ ==> (#[trigger] a.contains(
                            (allowed@[x].from@, #[trigger] allowed@[y].into@),
                        ) || flow_keys(to_add@).to_set().contains(
                            (allowed@[x].from@, allowed@[y].into@),
                        )),
                decreases allowed@.len() - fi,
            {
                let mut ai: usize = 0;
                while ai < allowed.len()
                    invariant
                        fi < allowed@.len(),
                        ai <= allowed@.len(),
                        a == flow_keys(allowed@).to_set(),
                        a.subset_of(closure(rs)),
                        pairs_sorted(flow_keys(to_add@)),
                        flow_keys(to_add@).to_set().subset_of(closure(rs)),
                        flow_keys(to_add@).to_set().disjoint(a),
                        forall|x: int, y: int|
                            0 <= x < fi && 0 <= y < allowed@.len() && allowed@[x].into@
                                == allowed@[y].from@ ==> (#[trigger] a.contains(
                                (allowed@[x].from@, #[trigger] allowed@[y].into@),
                            ) || flow_keys(to_add@).to_set().contains(
                                (allowed@[x].from@, allowed@[y].into@),
                            )),
                        forall|y: int|
                            0 <= y < ai && allowed@[fi as int].into@ == allowed@[y].from@ ==> (
                            a.contains((allowed@[fi as int].from@, #[trigger] allowed@[y].into@))
                                || flow_keys(to_add@).to_set().contains(
                                (allowed@[fi as int].from@, allowed@[y].into@),
                            )),
                    decreases allowed@.len() - ai,
                {
                    let new_flow = Flow {
                        from: allowed[fi].from.clone(),
                        into: allowed[ai].into.clone(),
                    };
                    if allowed[fi].into == allowed[ai].from && !flows_contain(&allowed, &new_flow) {
                        proof {
                            lemma_in_keys(allowed@, fi as int);
                            lemma_in_keys(allowed@, ai as int);
                            lemma_flows_compose(
                                rs,
                                allowed@[fi as int].from@,
                                allowed@[fi as int].into@,
                                allowed@[ai as int].into@,
                            );
                        }
                        flows_insert(&mut to_add, new_flow);
                    }
                    ai = ai + 1;
                }
                fi = fi + 1;
            }
            let mut ti: usize = 0;
            let ghost before = flow_keys(allowed@).to_set();
            while ti < to_add.len()
                invariant
                    ti <= to_add@.len(),
                    pairs_sorted(flow_keys(allowed@)),
                    flow_keys(allowed@).to_set() == before + flow_keys(to_add@.take(ti as int)).to_set(),
                decreases to_add@.len() - ti,
            {
                flows_insert(&mut allowed, copy_flow(&to_add[ti]));
                proof {
                    assert(flow_keys(to_add@.take(ti + 1)) =~= flow_keys(to_add@.take(ti as int)).push(
                        flow_key(to_add@[ti as int]),
                    ));
                    flow_keys(to_add@.take(ti as int)).lemma_push_to_set_commute(flow_key(to_add@[ti as int]));
                    assert(flow_keys(allowed@).to_set() =~= before + flow_keys(to_add@.take(ti + 1)).to_set());
                }
                ti = ti + 1;
            }
            proof {
                assert(to_add@.take(ti as int) =~= to_add@);
                lemma_sorted_no_dup(flow_keys(allowed@));
                lemma_sorted_no_dup(flow_keys(old_allowed));
                flow_keys(allowed@).unique_seq_to_set();
                flow_keys(old_allowed).unique_seq_to_set();
                assert(flow_keys(allowed@).len() == allowed@.len());
                assert(flow_keys(old_allowed).len() == old_allowed.len());
                lemma_len_subset(before, flow_keys(allowed@).to_set());
                if to_add@.len() > 0 {
                    lemma_in_keys(to_add@, 0);
                    let x = flow_key(to_add@[0]);
                    assert(!before.contains(x));
                    assert(before.insert(x).subset_of(flow_keys(allowed@).to_set()));
                    lemma_len_subset(before.insert(x), flow_keys(allowed@).to_set());
                    assert(allowed@.len() > len_before);
                }
                assert(flow_keys(allowed@).to_set().subset_of(closure(rs)));
                lemma_keys_bound(allowed@, rs, ends);
            }
            if allowed.len() == last_len {
                proof {
                    // nothing was added in this round, so `a` is closed
                    assert(to_add@.len() == 0);
                    assert(flow_keys(to_add@).to_set() =~= Set::empty());
                    assert(flow_keys(allowed@).to_set() =~= a);
                    assert(transitive(a)) by {
                        assert forall|x: (Seq<char>, Seq<char>), y: (Seq<char>, Seq<char>)|
                            a.contains(x) && a.contains(y) && x.1 == y.0 implies a.contains((x.0, y.1)) by {
                            assert(flow_keys(old_allowed).contains(x));
                            assert(flow_keys(old_allowed).contains(y));
                            let s = choose|s: int| 0 <= s < flow_keys(old_allowed).len() && flow_keys(old_allowed)[s] == x;
                            let t = choose|t: int| 0 <= t < flow_keys(old_allowed).len() && flow_keys(old_allowed)[t] == y;
                            assert(a.contains((old_allowed[s].from@, old_allowed[t].into@)) || flow_keys(to_add@).to_set().contains(
                                (old_allowed[s].from@, old_allowed[t].into@),
                            ));
                        }
                    }
                    lemma_closure_least(rs, a);
                    assert(flow_keys(allowed@).to_set() =~= closure(rs));
                }
                break;
            }
            last_len = allowed.len();
        }
        SecurityLattice { allowed }
    }

    /// Whether the flow is allowed: flows within a class always are.
    pub fn allows(&self, f: &Flow<String>) -> (r: bool)
        ensures
            r == (f.from@ == f.into@ || flow_keys(self.allowed@).contains(flow_key(*f))),
    {
        f.from == f.into || flows_contain(&self.allowed, f)
    }

    /// The flows between named things that their classes allow: for each
    /// pair of entries of `classification`, in order, the flow from the first
    /// name to the second where the flow between their classes is allowed.
    pub fn all_allowed(&self, classification: &Vec<(String, String)>) -> (r: Vec<Flow<String>>)
        ensures
            flow_keys(r@) == all_allowed_spec(self, classification@),
    {
        let mut r: Vec<Flow<String>> = Vec::new();
        let mut i: usize = 0;
        let ghost c = classification@;
        while i < classification.len()
            invariant
                i <= c.len(),
                c == classification@,
                flow_keys(r@) == allowed_pairs(self, c, i as int, 0),
            decreases c.len() - i,
        {
            let mut j: usize = 0;
            while j < classification.len()
                invariant
                    i < c.len(),
                    j <= c.len(),
                    c == classification@,
                    flow_keys(r@) == allowed_pairs(self, c, i as int, j as int),
                decreases c.len() - j,
            {
                let (a0, a1) = &classification[i];
                let (b0, b1) = &classification[j];
                let class_flow = Flow { from: a1.clone(), into: b1.clone() };
                let ghost before = r@;
                if self.allows(&class_flow) {
                    r.push(Flow { from: a0.clone(), into: b0.clone() });
                    proof {
                        assert(flow_keys(r@) =~= flow_keys(before).push((c[i as int].0@, c[j as int].0@)));
                    }
                }
                j = j + 1;
            }
            i = i + 1;
        }
        r
    }
}

/// Whether the lattice allows the flow from class `a` to class `b`.
pub open spec fn allows_spec(l: &SecurityLattice, a: Seq<char>, b: Seq<char>) -> bool {
    a == b || flow_keys(l.allowed@).contains((a, b))
}

/// The flows of `all_allowed` for the pairs before `(i, j)`, in order.
pub open spec fn allowed_pairs(
    l: &SecurityLattice,
    c: Seq<(String, String)>,
    i: int,
    j: int,
) -> Seq<(Seq<char>, Seq<char>)>
    decreases i, j,
{
    if i <= 0 && j <= 0 {
        Seq::empty()
    } else if j <= 0 {
        allowed_pairs(l, c, i - 1, c.len() as int)
    } else {
        let rest = allowed_pairs(l, c, i, j - 1);
        if allows_spec(l, c[i].1@, c[j - 1].1@) {
            rest.push((c[i].0@, c[j - 1].0@))
        } else {
            rest
        }
    }
}

/// The flows of `all_allowed`.
pub open spec fn all_allowed_spec(l: &SecurityLattice, c: Seq<(String, String)>) -> Seq<
    (Seq<char>, Seq<char>),
> {
    allowed_pairs(l, c, c.len() as int, 0)
}

} // verus!
