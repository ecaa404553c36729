//! Syntactic operations on the language: names, free variables,
//! substitution, simplification and normalisation of sums.
use vstd::prelude::*;
use vstd::string::*;

use super::ast::{
    AExpr, AOp, Array, BExpr, Command, Commands, Flow, Function, Guard, Int, LogicOp, RelOp,
    Target, Variable,
};
use super::semantics::{aexpr_sem, bexpr_sem, EmptySemanticsContext, SemanticsError};

verus! {

/// The name of a target, whatever its index.
pub open spec fn target_name<I>(t: Target<I>) -> Seq<char> {
    match t {
        Target::Variable(v) => v.0@,
        Target::Array(a, _) => a.0@,
    }
}

/// A target without its index, as a value: whether it is an array, and its
/// name.
pub open spec fn tkey<I>(t: Target<I>) -> (bool, Seq<char>) {
    match t {
        Target::Variable(v) => (false, v.0@),
        Target::Array(a, _) => (true, a.0@),
    }
}

/// Logical names start with an underscore.
pub open spec fn logical_name(s: Seq<char>) -> bool {
    s.len() > 0 && s[0] == '_'
}

fn is_logical_name(s: &String) -> (r: bool)
    ensures
        r == logical_name(s@),
{
    let st = s.as_str();
    if st.unicode_len() == 0 {
        false
    } else {
        st.get_char(0) == '_'
    }
}

impl Target<()> {
    /// The target as an array target of the same name.
    pub fn promote_to_array(self) -> (r: Target<()>)
        ensures
            tkey(r) == (true, target_name(self)),
            match self {
                Target::Variable(v) => r == Target::Array(Array(v.0), ()),
                Target::Array(a, _) => r == Target::Array(a, ()),
            },
    {
        match self {
            Target::Variable(Variable(var)) => Target::Array(Array(var), ()),
            Target::Array(arr, _) => Target::Array(arr, ()),
        }
    }
}

impl<Idx> Target<Idx> {
    /// The name of the target.
    pub fn name(&self) -> (r: &str)
        ensures
            r@ == target_name(*self),
    {
        match self {
            Target::Variable(x) => x.0.as_str(),
            Target::Array(a, _) => a.0.as_str(),
        }
    }

    /// The target with its index mapped by `f`.
    pub fn map_idx<T, F: FnOnce(Idx) -> T>(self, f: F) -> (r: Target<T>)
        requires
            self is Array ==> call_requires(f, (self->Array_1,)),
        ensures
            match self {
                Target::Variable(v) => r == Target::<T>::Variable(v),
                Target::Array(a, i) => exists|j: T| call_ensures(f, (i,), j) && r == Target::Array(a, j),
            },
    {
        match self {
            Target::Variable(var) => Target::Variable(var),
            Target::Array(arr, idx) => Target::Array(arr, f(idx)),
        }
    }

    /// The target without its index.
    pub fn unit(self) -> (r: Target<()>)
        ensures
            tkey(r) == tkey(self),
            match self {
                Target::Variable(v) => r == Target::<()>::Variable(v),
                Target::Array(a, _) => r == Target::Array(a, ()),
            },
    {
        match self {
            Target::Variable(var) => Target::Variable(var),
            Target::Array(arr, _) => Target::Array(arr, ()),
        }
    }

    /// Both are variables of the same name, or both arrays of the same name.
    pub fn same_name<T>(&self, other: &Target<T>) -> (r: bool)
        ensures
            r == (tkey(*self) == tkey(*other)),
    {
        match (self, other) {
            (Target::Variable(a), Target::Variable(b)) => a.0 == b.0,
            (Target::Array(a, _), Target::Array(b, _)) => a.0 == b.0,
            _ => false,
        }
    }

    /// Whether the target is a logical variable or array.
    pub fn is_logical(&self) -> (r: bool)
        ensures
            r == logical_name(target_name(*self)),
    {
        match self {
            Target::Variable(v) => v.is_logical(),
            Target::Array(a, _) => a.is_logical(),
        }
    }
}

impl Variable {
    /// Logical variables start with an underscore.
    pub fn is_logical(&self) -> (r: bool)
        ensures
            r == logical_name(self.0@),
    {
        is_logical_name(&self.0)
    }
}

impl Array {
    /// Logical arrays start with an underscore.
    pub fn is_logical(&self) -> (r: bool)
        ensures
            r == logical_name(self.0@),
    {
        is_logical_name(&self.0)
    }
}


/// Keys of a vector of targets.
pub open spec fn tkeys(v: Seq<Target<()>>) -> Seq<(bool, Seq<char>)> {
    v.map_values(|t: Target<()>| tkey(t))
}

/// The set of targets held by a vector.
pub open spec fn tset(v: Seq<Target<()>>) -> Set<(bool, Seq<char>)> {
    tkeys(v).to_set()
}

/// The vector holds each target once.
pub open spec fn tset_wf(v: Seq<Target<()>>) -> bool {
    tkeys(v).no_duplicates()
}

pub(crate) fn tset_contains(v: &Vec<Target<()>>, t: &Target<()>) -> (r: bool)
    ensures
        r == tset(v@).contains(tkey(*t)),
{
    let mut i: usize = 0;
    while i < v.len()
        invariant
            i <= v@.len(),
            forall|k: int| 0 <= k < i ==> tkey(v@[k]) != tkey(*t),
        decreases v@.len() - i,
    {
        if v[i].same_name(t) {
            assert(tkeys(v@)[i as int] == tkey(*t));
            return true;
        }
        i = i + 1;
    }
    assert(!tkeys(v@).contains(tkey(*t))) by {
        if tkeys(v@).contains(tkey(*t)) {
            let k = choose|k: int| 0 <= k < tkeys(v@).len() && tkeys(v@)[k] == tkey(*t);
            assert(tkey(v@[k]) == tkey(*t));
        }
    }
    false
}

pub(crate) fn tset_insert(v: &mut Vec<Target<()>>, t: Target<()>)
    requires
        tset_wf(old(v)@),
    ensures
        tset_wf(final(v)@),
        tset(final(v)@) == tset(old(v)@).insert(tkey(t)),
{
    if tset_contains(v, &t) {
        assert(tset(v@).insert(tkey(t)) =~= tset(v@));
        return;
    }
    let ghost before = v@;
    v.push(t);
    proof {
        before.lemma_push_map_commute(|t: Target<()>| tkey(t), t);
        assert(tkeys(v@) =~= tkeys(before).push(tkey(t)));
        tkeys(before).lemma_push_to_set_commute(tkey(t));
        assert(tkeys(v@).no_duplicates()) by {
            assert forall|a: int, b: int| 0 <= a < b < tkeys(v@).len() implies tkeys(v@)[a]
                != tkeys(v@)[b] by {
                if b == tkeys(v@).len() - 1 {
                    assert(tkeys(before).contains(tkeys(before)[a]));
                }
            }
        }
    }
}

pub(crate) fn tset_union(a: Vec<Target<()>>, b: Vec<Target<()>>) -> (r: Vec<Target<()>>)
    requires
        tset_wf(a@),
    ensures
        tset_wf(r@),
        tset(r@) == tset(a@).union(tset(b@)),
{
    let mut r = a;
    let mut b = b;
    let ghost a0 = r@;
    let ghost b0 = b@;
    proof {
        assert(tkeys(b0).take(0).to_set() =~= Set::empty());
        assert(tset(r@) =~= tset(a0).union(tkeys(b0).take(0).to_set()));
    }
    let mut i: usize = 0;
    while i < b.len()
        invariant
            b@ == b0,
            i <= b0.len(),
            tset_wf(r@),
            tset(r@) == tset(a0).union(tkeys(b0).take(i as int).to_set()),
        decreases b0.len() - i,
    {
        let t = b[i].copy();
        tset_insert(&mut r, t);
        proof {
            tkeys(b0).lemma_take_succ_push(i as int);
            tkeys(b0).take(i as int).lemma_push_to_set_commute(tkey(b0[i as int]));
            assert(tset(r@) =~= tset(a0).union(tkeys(b0).take(i + 1).to_set()));
        }
        i = i + 1;
    }
    assert(tkeys(b0).take(i as int) =~= tkeys(b0));
    r
}

fn tset_single(t: Target<()>) -> (r: Vec<Target<()>>)
    ensures
        tset_wf(r@),
        tset(r@) == set![tkey(t)],
{
    let mut r: Vec<Target<()>> = Vec::new();
    assert(tkeys(r@) =~= Seq::empty());
    assert(tset(r@) =~= Set::empty());
    tset_insert(&mut r, t);
    assert(tset(r@) =~= set![tkey(t)]);
    r
}

pub(crate) fn tset_empty() -> (r: Vec<Target<()>>)
    ensures
        tset_wf(r@),
        tset(r@) == Set::<(bool, Seq<char>)>::empty(),
{
    let r: Vec<Target<()>> = Vec::new();
    assert(tkeys(r@) =~= Seq::empty());
    assert(tset(r@) =~= Set::empty());
    r
}

/// The free targets of an arithmetic expression.
pub open spec fn aexpr_fv(e: AExpr) -> Set<(bool, Seq<char>)>
    decreases e,
{
    match e {
        AExpr::Number(_) => Set::empty(),
        AExpr::Reference(t) => match t {
            Target::Variable(v) => set![(false, v.0@)],
            Target::Array(a, i) => aexpr_fv(*i).insert((true, a.0@)),
        },
        AExpr::Binary(l, _, r) => aexpr_fv(*l).union(aexpr_fv(*r)),
        AExpr::Minus(x) => aexpr_fv(*x),
        AExpr::Function(f) => match f {
            Function::Count(a, x) | Function::LogicalCount(a, x) => set![(true, a.0@)].union(aexpr_fv(*x)),
            Function::Length(a) | Function::LogicalLength(a) => set![(true, a.0@)],
            Function::Division(x, y) | Function::Min(x, y) | Function::Max(x, y) => aexpr_fv(*x).union(aexpr_fv(*y)),
            Function::Fac(x) | Function::Fib(x) => aexpr_fv(*x),
        },
    }
}

/// The free targets of a target with an index: itself and those of the index.
pub open spec fn target_fv(t: Target<Box<AExpr>>) -> Set<(bool, Seq<char>)> {
    aexpr_fv(AExpr::Reference(t))
}

/// The free targets of a function application.
pub open spec fn function_fv(f: Function) -> Set<(bool, Seq<char>)> {
    aexpr_fv(AExpr::Function(f))
}

/// The free targets of a boolean expression; a quantifier binds its target.
pub open spec fn bexpr_fv(b: BExpr) -> Set<(bool, Seq<char>)>
    decreases b,
{
    match b {
        BExpr::Bool(_) => Set::empty(),
        BExpr::Rel(l, _, r) => aexpr_fv(l).union(aexpr_fv(r)),
        BExpr::Logic(l, _, r) => bexpr_fv(*l).union(bexpr_fv(*r)),
        BExpr::Not(x) => bexpr_fv(*x),
        BExpr::Quantified(_, x, b) => bexpr_fv(*b).remove(tkey(x)),
    }
}

/// The free targets of a sequence of commands.
pub open spec fn commands_fv(cs: Seq<Command>) -> Set<(bool, Seq<char>)>
    decreases cs,
{
    if cs.len() == 0 {
        Set::empty()
    } else {
        commands_fv(cs.drop_last()).union(command_fv(cs.last()))
    }
}

/// The free targets of a sequence of guarded commands.
pub open spec fn guards_fv(gs: Seq<Guard>) -> Set<(bool, Seq<char>)>
    decreases gs,
{
    if gs.len() == 0 {
        Set::empty()
    } else {
        guards_fv(gs.drop_last()).union(guard_fv(gs.last()))
    }
}

/// The free targets of a guarded command: of its guard and of its body.
pub open spec fn guard_fv(g: Guard) -> Set<(bool, Seq<char>)>
    decreases g,
{
    bexpr_fv(g.0).union(commands_fv(g.1.0@))
}

/// The free targets of a command; the predicates of annotated and enriched
/// commands are not looked at.
pub open spec fn command_fv(c: Command) -> Set<(bool, Seq<char>)>
    decreases c,
{
    match c {
        Command::Assignment(x, a) => target_fv(x).union(aexpr_fv(a)),
        Command::Skip => Set::empty(),
        Command::If(gs) => guards_fv(gs@),
        Command::Loop(gs) => guards_fv(gs@),
        Command::EnrichedLoop(_, gs) => guards_fv(gs@),
        Command::Annotated(_, cs, _) => commands_fv(cs.0@),
        Command::Break => Set::empty(),
        Command::Continue => Set::empty(),
    }
}

impl AExpr {
    /// The free targets of the expression.
    pub fn fv(&self) -> (r: Vec<Target<()>>)
        ensures
            tset_wf(r@),
            tset(r@) == aexpr_fv(*self),
        decreases super::ast::aexpr_size(*self), 1int,
    {
        match self {
            AExpr::Number(_) => tset_empty(),
            AExpr::Reference(v) => v.fv(),
            AExpr::Binary(l, _, r) => tset_union(l.fv(), r.fv()),
            AExpr::Minus(x) => x.fv(),
            AExpr::Function(f) => f.fv(),
        }
    }
}

impl Target<Box<AExpr>> {
    /// The free targets: the target itself and those of its index.
    pub fn fv(&self) -> (r: Vec<Target<()>>)
        ensures
            tset_wf(r@),
            tset(r@) == target_fv(*self),
        decreases super::ast::aexpr_size(AExpr::Reference(*self)), 0int,
    {
        match self {
            Target::Variable(v) => tset_single(Target::Variable(v.clone())),
            Target::Array(Array(a), idx) => {
                let mut fv = idx.fv();
                tset_insert(&mut fv, Target::Array(Array(a.clone()), ()));
                fv
            },
        }
    }
}

impl Function {
    /// The free targets of the arguments, and the array of a count or length.
    pub fn fv(&self) -> (r: Vec<Target<()>>)
        ensures
            tset_wf(r@),
            tset(r@) == function_fv(*self),
        decreases super::ast::aexpr_size(AExpr::Function(*self)), 0int,
    {
        match self {
            Function::Count(a, x) | Function::LogicalCount(a, x) => tset_union(
                tset_single(Target::Array(a.clone(), ())),
                x.fv(),
            ),
            Function::Length(a) | Function::LogicalLength(a) => tset_single(Target::Array(a.clone(), ())),
            Function::Division(x, y) | Function::Min(x, y) | Function::Max(x, y) => tset_union(x.fv(), y.fv()),
            Function::Fac(x) | Function::Fib(x) => x.fv(),
        }
    }
}

impl BExpr {
    /// The free targets of the expression.
    pub fn fv(&self) -> (r: Vec<Target<()>>)
        ensures
            tset_wf(r@),
            tset(r@) == bexpr_fv(*self),
        decreases *self,
    {
        match self {
            BExpr::Bool(_) => tset_empty(),
            BExpr::Rel(l, _, r) => tset_union(l.fv(), r.fv()),
            BExpr::Logic(l, _, r) => tset_union(l.fv(), r.fv()),
            BExpr::Not(x) => x.fv(),
            BExpr::Quantified(_, x, b) => {
                let fv = b.fv();
                tset_remove(fv, x)
            },
        }
    }
}

fn tset_remove(v: Vec<Target<()>>, t: &Target<()>) -> (r: Vec<Target<()>>)
    requires
        tset_wf(v@),
    ensures
        tset_wf(r@),
        tset(r@) == tset(v@).remove(tkey(*t)),
{
    let mut r = tset_empty();
    let mut i: usize = 0;
    let ghost s = tkeys(v@);
    proof {
        assert(s.take(0).to_set() =~= Set::empty());
        assert(tset(r@) =~= s.take(0).to_set().remove(tkey(*t)));
    }
    while i < v.len()
        invariant
            i <= v@.len(),
            s == tkeys(v@),
            tset_wf(r@),
            tset(r@) == s.take(i as int).to_set().remove(tkey(*t)),
        decreases v@.len() - i,
    {
        if !v[i].same_name(t) {
            tset_insert(&mut r, v[i].copy());
        }
        proof {
            s.lemma_take_succ_push(i as int);
            s.take(i as int).lemma_push_to_set_commute(s[i as int]);
            assert(tset(r@) =~= s.take(i + 1).to_set().remove(tkey(*t)));
        }
        i = i + 1;
    }
    assert(s.take(i as int) =~= s);
    r
}

impl Commands {
    /// The free targets of all the commands.
    pub fn fv(&self) -> (r: Vec<Target<()>>)
        ensures
            tset_wf(r@),
            tset(r@) == commands_fv(self.0@),
        decreases *self,
    {
        let mut r = tset_empty();
        let mut i: usize = 0;
        proof {
            assert(self.0@.take(0) =~= Seq::empty());
        }
        while i < self.0.len()
            invariant
                i <= self.0@.len(),
                tset_wf(r@),
                tset(r@) == commands_fv(self.0@.take(i as int)),
            decreases self.0@.len() - i,
        {
            let c = self.0[i].fv();
            r = tset_union(r, c);
            proof {
                assert(self.0@.take(i + 1).drop_last() =~= self.0@.take(i as int));
            }
            i = i + 1;
        }
        assert(self.0@.take(i as int) =~= self.0@);
        r
    }
}

/// The free targets of all the guarded commands.
fn guards_fv_exec(guards: &Vec<Guard>) -> (r: Vec<Target<()>>)
    ensures
        tset_wf(r@),
        tset(r@) == guards_fv(guards@),
    decreases guards@,
{
    let mut r = tset_empty();
    let mut i: usize = 0;
    proof {
        assert(guards@.take(0) =~= Seq::empty());
    }
    while i < guards.len()
        invariant
            i <= guards@.len(),
            tset_wf(r@),
            tset(r@) == guards_fv(guards@.take(i as int)),
        decreases guards@.len() - i,
    {
        let c = guards[i].fv();
        r = tset_union(r, c);
        proof {
            assert(guards@.take(i + 1).drop_last() =~= guards@.take(i as int));
        }
        i = i + 1;
    }
    assert(guards@.take(i as int) =~= guards@);
    r
}

impl Guard {
    /// The free targets of the guard and of the body.
    pub fn fv(&self) -> (r: Vec<Target<()>>)
        ensures
            tset_wf(r@),
            tset(r@) == guard_fv(*self),
        decreases *self,
    {
        tset_union(self.0.fv(), self.1.fv())
    }
}

impl Command {
    /// The free targets of the command.
    pub fn fv(&self) -> (r: Vec<Target<()>>)
        ensures
            tset_wf(r@),
            tset(r@) == command_fv(*self),
        decreases *self,
    {
        match self {
            Command::Assignment(x, a) => tset_union(x.fv(), a.fv()),
            Command::Skip => tset_empty(),
            Command::If(c) => guards_fv_exec(c),
            Command::Loop(c) => guards_fv_exec(c),
            Command::EnrichedLoop(_, c) => guards_fv_exec(c),
            Command::Annotated(_, c, _) => c.fv(),
            Command::Break => tset_empty(),
            Command::Continue => tset_empty(),
        }
    }
}

impl<T> Flow<T> {
    /// The flow with `f` applied to both ends.
    pub fn map<'a, S, F: Fn(&'a T) -> S>(&'a self, f: F) -> (r: Flow<S>)
        requires
            call_requires(f, (&self.from,)),
            call_requires(f, (&self.into,)),
        ensures
            call_ensures(f, (&self.from,), r.from),
            call_ensures(f, (&self.into,), r.into),
    {
        Flow { from: f(&self.from), into: f(&self.into) }
    }
}

} // verus!
