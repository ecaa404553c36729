//! Pieces of the monotone framework over program graphs: directions,
//! lattices, worklists, and the order in which nodes are shown.
use vstd::prelude::*;
use std::collections::VecDeque;

use super::pg::{Node, ProgramGraph};
use crate::text::{chars_of, compare_str, lemma_chars_order_eq};

verus! {

/// The direction in which an analysis follows the edges.
#[derive(Clone, Copy, PartialEq, Eq, Structural, Debug)]
pub enum Direction {
    Forward,
    Backward,
}

/// The facts of an analysis: a bottom element, least upper bounds and their
/// order.
pub trait Lattice: Sized {
    fn bottom() -> Self;

    fn lub(&self, other: &Self) -> Self;

    fn contains(&self, other: &Self) -> bool;
}

/// The nodes that an analysis has still to visit.
pub trait Worklist: Sized {
    /// The nodes in the worklist, in the order in which they were inserted.
    spec fn nodes(&self) -> Seq<Node>;

    fn empty() -> (r: Self)
        ensures
            r.nodes().len() == 0,
    ;

    fn insert(&mut self, n: Node)
        ensures
            final(self).nodes() == old(self).nodes().push(n),
    ;

    fn extract(&mut self, pg: &ProgramGraph) -> (r: Option<Node>)
        ensures
            match r {
                None => old(self).nodes().len() == 0 && final(self).nodes() == old(self).nodes(),
                Some(n) => old(self).nodes().len() > 0 && old(self).nodes().to_multiset()
                    == final(self).nodes().to_multiset().insert(n),
            },
    ;
}

/// A worklist that gives out the node inserted first.
pub struct FiFo(pub VecDeque<Node>);

/// A worklist that gives out the node inserted last.
pub struct LiFo(pub Vec<Node>);

impl Worklist for FiFo {
    open spec fn nodes(&self) -> Seq<Node> {
        self.0@
    }

    fn empty() -> (r: Self) {
        FiFo(VecDeque::new())
    }

    fn insert(&mut self, n: Node) {
        self.0.push_back(n);
    }

    fn extract(&mut self, pg: &ProgramGraph) -> (r: Option<Node>)
        ensures
            match r {
                None => true,
                Some(n) => n == old(self).nodes()[0] && final(self).nodes() == old(self).nodes().drop_first(),
            },
    {
        let ghost before = self.0@;
        let r = self.0.pop_front();
        proof {
            if let Some(n) = r {
                before.to_multiset_ensures();
                assert(before.remove(0) =~= self.0@);
                assert(before.contains(n));
                assert(before.to_multiset() =~= self.0@.to_multiset().insert(n));
                assert(self.0@ =~= before.drop_first());
            }
        }
        r
    }
}

impl Worklist for LiFo {
    open spec fn nodes(&self) -> Seq<Node> {
        self.0@
    }

    fn empty() -> (r: Self) {
        LiFo(Vec::new())
    }

    fn insert(&mut self, n: Node) {
        self.0.push(n);
    }

    fn extract(&mut self, pg: &ProgramGraph) -> (r: Option<Node>)
        ensures
            match r {
                None => true,
                Some(n) => n == old(self).nodes().last() && final(self).nodes() == old(self).nodes().drop_last(),
            },
    {
        let ghost before = self.0@;
        let r = self.0.pop();
        proof {
            if let Some(n) = r {
                assert(before =~= self.0@.push(n));
                self.0@.to_multiset_ensures();
            }
        }
        r
    }
}

/// How a node is placed when nodes are shown in order: the start first, the
/// end last, numbered nodes by their number, and the others by name.
#[derive(Clone, Copy, PartialEq, Eq, Debug)]
pub enum NodeOrder<'a> {
    First,
    Middle(i32),
    Random(&'a str),
    Last,
}

/// Whether a character is numeric, in the sense of Unicode's number
/// categories.
pub uninterp spec fn char_is_numeric(c: char) -> bool;

/// `char::is_numeric`: whether `c` has a Unicode number category; every ASCII
/// digit has one. Which other characters have one is left to the name.
#[verifier::external_body]
fn is_numeric(c: char) -> (r: bool)
    ensures
        r == char_is_numeric(c),
        ('0' <= c && c <= '9') ==> r,
{
    c.is_numeric()
}

/// The characters of `s` that are numeric, in order.
pub open spec fn numeric_chars(s: Seq<char>) -> Seq<char> {
    s.filter(|c: char| char_is_numeric(c))
}

/// The value of a string of ASCII digits.
pub open spec fn decimal_value(v: Seq<char>) -> int
    decreases v.len(),
{
    if v.len() == 0 {
        0
    } else {
        decimal_value(v.drop_last()) * 10 + ((v.last() as int) - ('0' as int))
    }
}

/// What a string of numeric characters reads as: its value where it is all
/// ASCII digits and fits an `i32`, and 0 otherwise.
pub open spec fn numeric_value(v: Seq<char>) -> i32 {
    if v.len() > 0 && (forall|i: int| 0 <= i < v.len() ==> '0' <= #[trigger] v[i] && v[i] <= '9')
        && decimal_value(v) <= i32::MAX {
        decimal_value(v) as i32
    } else {
        0
    }
}

/// The place of a node by its name: names with `▷`, and `qS`, come first;
/// names with `◀`, and `qF`, last; names with a numeric character by the
/// number they spell; the others by name.
pub open spec fn node_order_of<'a>(n: &'a str) -> NodeOrder<'a> {
    let s = n@;
    if s.contains('▷') {
        NodeOrder::First
    } else if s == "qS"@ {
        NodeOrder::First
    } else if s.contains('◀') {
        NodeOrder::Last
    } else if s == "qF"@ {
        NodeOrder::Last
    } else if exists|i: int| 0 <= i < s.len() && char_is_numeric(#[trigger] s[i]) {
        NodeOrder::Middle(numeric_value(numeric_chars(s)))
    } else {
        NodeOrder::Random(n)
    }
}

proof fn lemma_decimal_value_prefix(v: Seq<char>, i: int)
    requires
        0 <= i <= v.len(),
        forall|k: int| 0 <= k < v.len() ==> '0' <= #[trigger] v[k] && v[k] <= '9',
    ensures
        0 <= decimal_value(v.take(i)) <= decimal_value(v),
    decreases v.len(),
{
    if v.len() > 0 {
        assert(v[v.len() - 1] == v.last());
        if i < v.len() {
            assert(v.drop_last().take(i) =~= v.take(i));
            lemma_decimal_value_prefix(v.drop_last(), i);
        } else {
            assert(v.take(i) =~= v);
            lemma_decimal_value_prefix(v.drop_last(), i - 1);
            assert(v.drop_last().take(i - 1) =~= v.drop_last());
        }
    } else {
        assert(v.take(i) =~= v);
    }
}

/// Reads a string of numeric characters as `numeric_value` does.
fn read_number(v: &Vec<char>) -> (r: i32)
    ensures
        r == numeric_value(v@),
{
    if v.len() == 0 {
        return 0;
    }
    let mut k: usize = 0;
    while k < v.len()
        invariant
            k <= v@.len(),
            forall|j: int| 0 <= j < k ==> '0' <= #[trigger] v@[j] && v@[j] <= '9',
        decreases v@.len() - k,
    {
        if !('0' <= v[k] && v[k] <= '9') {
            return 0;
        }
        k = k + 1;
    }
    let mut acc: i64 = 0;
    let mut i: usize = 0;
    while i < v.len()
        invariant
            i <= v@.len(),
            forall|j: int| 0 <= j < v@.len() ==> '0' <= #[trigger] v@[j] && v@[j] <= '9',
            acc as int == decimal_value(v@.take(i as int)),
            0 <= acc <= i32::MAX,
        decreases v@.len() - i,
    {
        assert(v@.take(i + 1).drop_last() =~= v@.take(i as int));
        assert(v@[i as int] == v@.take(i + 1).last());
        let c = v[i];
        assert('0' <= c && c <= '9');
        assert(c as u32 >= 48 && c as u32 <= 57);
        let d = ((c as u32) - 48) as i64;
        let next = acc * 10 + d;
        if next > i32::MAX as i64 {
            proof {
                lemma_decimal_value_prefix(v@, i + 1);
            }
            return 0;
        }
        acc = next;
        i = i + 1;
    }
    assert(v@.take(i as int) =~= v@);
    acc as i32
}

proof fn lemma_push_contains(s: Seq<char>, c: char, x: char)
    ensures
        s.push(c).contains(x) == (s.contains(x) || c == x),
{
    if s.contains(x) {
        let j = choose|j: int| 0 <= j < s.len() && s[j] == x;
        assert(s.push(c)[j] == x);
    }
    if c == x {
        assert(s.push(c)[s.len() as int] == x);
    }
    if s.push(c).contains(x) {
        let j = choose|j: int| 0 <= j < s.push(c).len() && s.push(c)[j] == x;
        if j < s.len() {
            assert(s[j] == x);
        }
    }
}

impl<'a> NodeOrder<'a> {
    /// The place of a node by its name.
    pub fn parse(n: &'a str) -> (r: NodeOrder<'a>)
        ensures
            r == node_order_of(n),
    {
        let cs = chars_of(n);
        let mut has_start = false;
        let mut has_end = false;
        let mut numeric: Vec<char> = Vec::new();
        let mut i: usize = 0;
        proof {
            reveal(Seq::filter);
        }
        while i < cs.len()
            invariant
                i <= cs@.len(),
                cs@ == n@,
                has_start == cs@.take(i as int).contains('▷'),
                has_end == cs@.take(i as int).contains('◀'),
                numeric@ == numeric_chars(cs@.take(i as int)),
            decreases cs@.len() - i,
        {
            let c = cs[i];
            proof {
                reveal(Seq::filter);
                assert(cs@.take(i + 1) =~= cs@.take(i as int).push(c));
                assert(cs@.take(i + 1).drop_last() =~= cs@.take(i as int));
                lemma_push_contains(cs@.take(i as int), c, '▷');
                lemma_push_contains(cs@.take(i as int), c, '◀');
            }
            if c == '▷' {
                has_start = true;
            }
            if c == '◀' {
                has_end = true;
            }
            if is_numeric(c) {
                numeric.push(c);
            }
            i = i + 1;
        }
        proof {
            assert(cs@.take(i as int) =~= cs@);
        }
        let ghost s = n@;
        if has_start {
            return NodeOrder::First;
        }
        if compare_str(n, "qS") == 0 {
            proof {
                lemma_chars_order_eq(n@, "qS"@);
            }
            return NodeOrder::First;
        }
        proof {
            lemma_chars_order_eq(n@, "qS"@);
        }
        if has_end {
            return NodeOrder::Last;
        }
        if compare_str(n, "qF") == 0 {
            proof {
                lemma_chars_order_eq(n@, "qF"@);
            }
            return NodeOrder::Last;
        }
        proof {
            lemma_chars_order_eq(n@, "qF"@);
        }
        if numeric.len() > 0 {
            proof {
                let pred = |c: char| char_is_numeric(c);
                assert(numeric@ == s.filter(pred));
                s.lemma_filter_pred(pred, 0);
                let x = numeric@[0];
                assert(s.filter(pred).contains(x));
                s.lemma_filter_contains_rev(pred, x);
                let k = choose|k: int| 0 <= k < s.len() && s[k] == x;
                assert(char_is_numeric(s[k]));
            }
            return NodeOrder::Middle(read_number(&numeric));
        }
        proof {
            assert forall|i: int| 0 <= i < s.len() implies !char_is_numeric(#[trigger] s[i]) by {
                if char_is_numeric(s[i]) {
                    s.lemma_filter_contains(|c: char| char_is_numeric(c), i);
                }
            }
        }
        NodeOrder::Random(n)
    }
}

} // verus!
