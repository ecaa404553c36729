//! The information flows of a program: an assignment makes information flow
//! from the variables it reads into the target it writes, and from the
//! variables read by every guard that led to it.
use vstd::prelude::*;

use super::ast::{AExpr, Command, Commands, Flow, Guard, Target};
use super::ast_ext::{
    aexpr_fv, bexpr_fv, tkey, tset, tset_empty, tset_union, tset_wf, tkeys,
};

verus! {

/// A target, by kind and name.
pub type TKey = (bool, Seq<char>);

/// A flow between targets, as the pair of their keys.
pub open spec fn tflow_key(f: Flow<Target<()>>) -> (TKey, TKey) {
    (tkey(f.from), tkey(f.into))
}

/// The keys of a sequence of flows.
pub open spec fn tflow_keys(v: Seq<Flow<Target<()>>>) -> Seq<(TKey, TKey)> {
    v.map_values(|f: Flow<Target<()>>| tflow_key(f))
}

/// The set of flows held by a vector.
pub open spec fn tflows(v: Seq<Flow<Target<()>>>) -> Set<(TKey, TKey)> {
    tflow_keys(v).to_set()
}

/// The vector holds each flow once.
pub open spec fn tflows_wf(v: Seq<Flow<Target<()>>>) -> bool {
    tflow_keys(v).no_duplicates()
}

/// The flows from each of `srcs` into `k`.
pub open spec fn into_each(srcs: Set<TKey>, k: TKey) -> Set<(TKey, TKey)> {
    Set::new(|p: (TKey, TKey)| srcs.contains(p.0) && p.1 == k)
}

/// What the index of an assigned array element reads; nothing for a variable.
pub open spec fn index_fv(t: Target<Box<AExpr>>) -> Set<TKey> {
    match t {
        Target::Variable(_) => Set::empty(),
        Target::Array(_, idx) => aexpr_fv(*idx),
    }
}

/// What the guards of `gs` read.
pub open spec fn guards_read(gs: Seq<Guard>) -> Set<TKey>
    decreases gs.len(),
{
    if gs.len() == 0 {
        Set::empty()
    } else {
        guards_read(gs.drop_last()).union(bexpr_fv(gs.last().0))
    }
}

/// The flows of `c` when the targets `imp` flow implicitly into whatever it
/// assigns.
pub open spec fn cmd_sec(c: Command, imp: Set<TKey>) -> Set<(TKey, TKey)>
    decreases c,
{
    match c {
        Command::Assignment(t, a) => into_each(imp.union(index_fv(t)).union(aexpr_fv(a)), tkey(t)),
        Command::Skip => Set::empty(),
        Command::If(gs) => guards_sec(gs@, imp),
        Command::Loop(gs) => guards_sec(gs@, imp),
        Command::EnrichedLoop(_, gs) => guards_sec(gs@, imp),
        Command::Annotated(_, cs, _) => cmds_sec(cs.0@, imp),
        Command::Break => Set::empty(),
        Command::Continue => Set::empty(),
    }
}

/// The flows of a sequence of commands.
pub open spec fn cmds_sec(cs: Seq<Command>, imp: Set<TKey>) -> Set<(TKey, TKey)>
    decreases cs,
{
    if cs.len() == 0 {
        Set::empty()
    } else {
        cmds_sec(cs.drop_last(), imp).union(cmd_sec(cs.last(), imp))
    }
}

/// The flows of the body of `g`.
pub open spec fn body_sec(g: Guard, imp: Set<TKey>) -> Set<(TKey, TKey)>
    decreases g,
{
    cmds_sec(g.1.0@, imp)
}

/// The flows of guarded commands: each body sees, besides `imp`, what its
/// own guard and every guard before it read.
pub open spec fn guards_sec(gs: Seq<Guard>, imp: Set<TKey>) -> Set<(TKey, TKey)>
    decreases gs,
{
    if gs.len() == 0 {
        Set::empty()
    } else {
        guards_sec(gs.drop_last(), imp).union(body_sec(gs.last(), imp.union(guards_read(gs))))
    }
}

fn tflows_contain(v: &Vec<Flow<Target<()>>>, f: &Flow<Target<()>>) -> (r: bool)
    ensures
        r == tflows(v@).contains(tflow_key(*f)),
{
    let mut i: usize = 0;
    while i < v.len()
        invariant
            i <= v@.len(),
            forall|k: int| 0 <= k < i ==> tflow_key(v@[k]) != tflow_key(*f),
        decreases v@.len() - i,
    {
        if v[i].from.same_name(&f.from) && v[i].into.same_name(&f.into) {
            assert(tflow_keys(v@)[i as int] == tflow_key(*f));
            return true;
        }
        i = i + 1;
    }
    assert(!tflow_keys(v@).contains(tflow_key(*f))) by {
        if tflow_keys(v@).contains(tflow_key(*f)) {
            let k = choose|k: int| 0 <= k < tflow_keys(v@).len() && tflow_keys(v@)[k] == tflow_key(*f);
            assert(tflow_key(v@[k]) == tflow_key(*f));
        }
    }
    false
}

fn tflows_insert(v: &mut Vec<Flow<Target<()>>>, f: Flow<Target<()>>)
    requires
        tflows_wf(old(v)@),
    ensures
        tflows_wf(final(v)@),
        tflows(final(v)@) == tflows(old(v)@).insert(tflow_key(f)),
{
    if tflows_contain(v, &f) {
        assert(tflows(v@).insert(tflow_key(f)) =~= tflows(v@));
        return;
    }
    let ghost before = v@;
    v.push(f);
    proof {
        before.lemma_push_map_commute(|f: Flow<Target<()>>| tflow_key(f), f);
        assert(tflow_keys(v@) =~= tflow_keys(before).push(tflow_key(f)));
        tflow_keys(before).lemma_push_to_set_commute(tflow_key(f));
        assert(tflow_keys(v@).no_duplicates()) by {
            assert forall|a: int, b: int| 0 <= a < b < tflow_keys(v@).len() implies tflow_keys(v@)[a]
                != tflow_keys(v@)[b] by {
                if b == tflow_keys(v@).len() - 1 {
                    assert(tflow_keys(before).contains(tflow_keys(before)[a]));
                }
            }
        }
    }
}

fn tflows_empty() -> (r: Vec<Flow<Target<()>>>)
    ensures
        tflows_wf(r@),
        tflows(r@) == Set::<(TKey, TKey)>::empty(),
{
    let r: Vec<Flow<Target<()>>> = Vec::new();
    assert(tflow_keys(r@) =~= Seq::empty());
    r
}

fn tflows_union(a: Vec<Flow<Target<()>>>, b: Vec<Flow<Target<()>>>) -> (r: Vec<Flow<Target<()>>>)
    requires
        tflows_wf(a@),
    ensures
        tflows_wf(r@),
        tflows(r@) == tflows(a@).union(tflows(b@)),
{
    let mut r = a;
    let ghost a0 = r@;
    let ghost b0 = b@;
    proof {
        assert(tflow_keys(b0).take(0).to_set() =~= Set::empty());
        assert(tflows(r@) =~= tflows(a0).union(tflow_keys(b0).take(0).to_set()));
    }
    let mut i: usize = 0;
    while i < b.len()
        invariant
            b@ == b0,
            i <= b0.len(),
            tflows_wf(r@),
            tflows(r@) == tflows(a0).union(tflow_keys(b0).take(i as int).to_set()),
        decreases b0.len() - i,
    {
        let f = Flow { from: b[i].from.copy(), into: b[i].into.copy() };
        tflows_insert(&mut r, f);
        proof {
            tflow_keys(b0).lemma_take_succ_push(i as int);
            tflow_keys(b0).take(i as int).lemma_push_to_set_commute(tflow_key(b0[i as int]));
            assert(tflows(r@) =~= tflows(a0).union(tflow_keys(b0).take(i + 1).to_set()));
        }
        i = i + 1;
    }
    assert(tflow_keys(b0).take(i as int) =~= tflow_keys(b0));
    r
}

/// The flows from each target of `srcs` into `into`.
fn flows_into(srcs: &Vec<Target<()>>, into: &Target<()>) -> (r: Vec<Flow<Target<()>>>)
    requires
        tset_wf(srcs@),
    ensures
        tflows_wf(r@),
        tflows(r@) == into_each(tset(srcs@), tkey(*into)),
{
    let mut r = tflows_empty();
    let ghost s = tkeys(srcs@);
    let mut i: usize = 0;
    proof {
        assert(tflows(r@) =~= into_each(s.take(0).to_set(), tkey(*into)));
    }
    while i < srcs.len()
        invariant
            i <= srcs@.len(),
            s == tkeys(srcs@),
            tflows_wf(r@),
            tflows(r@) == into_each(s.take(i as int).to_set(), tkey(*into)),
        decreases srcs@.len() - i,
    {
        tflows_insert(&mut r, Flow { from: srcs[i].copy(), into: into.copy() });
        proof {
            s.lemma_take_succ_push(i as int);
            s.take(i as int).lemma_push_to_set_commute(s[i as int]);
            assert(tflows(r@) =~= into_each(s.take(i + 1).to_set(), tkey(*into)));
        }
        i = i + 1;
    }
    assert(s.take(i as int) =~= s);
    r
}

impl Commands {
    /// The flows of the commands when `implicit` flows into every assignment.
    pub fn sec(&self, implicit: &Vec<Target<()>>) -> (r: Vec<Flow<Target<()>>>)
        requires
            tset_wf(implicit@),
        ensures
            tflows_wf(r@),
            tflows(r@) == cmds_sec(self.0@, tset(implicit@)),
        decreases *self,
    {
        let mut r = tflows_empty();
        let mut i: usize = 0;
        proof {
            assert(self.0@.take(0) =~= Seq::<Command>::empty());
        }
        while i < self.0.len()
            invariant
                i <= self.0@.len(),
                tset_wf(implicit@),
                tflows_wf(r@),
                tflows(r@) == cmds_sec(self.0@.take(i as int), tset(implicit@)),
            decreases self.0@.len() - i,
        {
            let c = self.0[i].sec(implicit);
            r = tflows_union(r, c);
            proof {
                assert(self.0@.take(i + 1).drop_last() =~= self.0@.take(i as int));
            }
            i = i + 1;
        }
        assert(self.0@.take(i as int) =~= self.0@);
        r
    }

    /// The flows of the commands.
    pub fn flows(&self) -> (r: Vec<Flow<Target<()>>>)
        ensures
            tflows_wf(r@),
            tflows(r@) == cmds_sec(self.0@, Set::empty()),
    {
        let none = tset_empty();
        self.sec(&none)
    }
}

impl Guard {
    /// What the body of the guarded command sees flowing implicitly, and
    /// its flows: `implicit` and what the guard reads flow into every
    /// assignment of the body.
    pub fn sec2(&self, implicit: &Vec<Target<()>>) -> (r: (Vec<Target<()>>, Vec<Flow<Target<()>>>))
        requires
            tset_wf(implicit@),
        ensures
            tset_wf(r.0@),
            tset(r.0@) == tset(implicit@).union(bexpr_fv(self.0)),
            tflows_wf(r.1@),
            tflows(r.1@) == body_sec(*self, tset(implicit@).union(bexpr_fv(self.0))),
        decreases *self,
    {
        let mut imp = tset_empty();
        imp = tset_union(imp, copy_targets(implicit));
        let imp = tset_union(imp, self.0.fv());
        proof {
            assert(tset(imp@) =~= tset(implicit@).union(bexpr_fv(self.0)));
        }
        let flows = self.1.sec(&imp);
        (imp, flows)
    }
}

fn copy_targets(v: &Vec<Target<()>>) -> (r: Vec<Target<()>>)
    ensures
        r@ == v@,
{
    let mut r: Vec<Target<()>> = Vec::new();
    let mut i: usize = 0;
    while i < v.len()
        invariant
            i <= v@.len(),
            r@ == v@.take(i as int),
        decreases v@.len() - i,
    {
        r.push(v[i].copy());
        proof {
            assert(r@ =~= v@.take(i + 1));
        }
        i = i + 1;
    }
    assert(v@.take(i as int) =~= v@);
    r
}

/// The flows of guarded commands, each body seeing what its own guard and
/// the guards before it read.
fn guards_sec_exec(guards: &Vec<Guard>, implicit: &Vec<Target<()>>) -> (r: Vec<Flow<Target<()>>>)
    requires
        tset_wf(implicit@),
    ensures
        tflows_wf(r@),
        tflows(r@) == guards_sec(guards@, tset(implicit@)),
    decreases guards@,
{
    let ghost imp0 = tset(implicit@);
    let mut imp = copy_targets(implicit);
    let mut flows = tflows_empty();
    let mut i: usize = 0;
    proof {
        assert(guards@.take(0) =~= Seq::<Guard>::empty());
        assert(tset(imp@) =~= imp0.union(guards_read(guards@.take(0))));
    }
    while i < guards.len()
        invariant
            i <= guards@.len(),
            tset_wf(imp@),
            tset(imp@) == imp0.union(guards_read(guards@.take(i as int))),
            tflows_wf(flows@),
            tflows(flows@) == guards_sec(guards@.take(i as int), imp0),
        decreases guards@.len() - i,
    {
        let (new_imp, new_flows) = guards[i].sec2(&imp);
        proof {
            let t = guards@.take(i + 1);
            assert(t.drop_last() =~= guards@.take(i as int));
            assert(t.last() == guards@[i as int]);
            assert(imp0.union(guards_read(t)) =~= tset(imp@).union(bexpr_fv(guards@[i as int].0)));
        }
        imp = tset_union(imp, new_imp);
        flows = tflows_union(flows, new_flows);
        proof {
            let t = guards@.take(i + 1);
            assert(tset(imp@) =~= imp0.union(guards_read(t)));
        }
        i = i + 1;
    }
    assert(guards@.take(i as int) =~= guards@);
    flows
}

impl Command {
    /// The flows of the command when `implicit` flows into every assignment.
    pub fn sec(&self, implicit: &Vec<Target<()>>) -> (r: Vec<Flow<Target<()>>>)
        requires
            tset_wf(implicit@),
        ensures
            tflows_wf(r@),
            tflows(r@) == cmd_sec(*self, tset(implicit@)),
        decreases *self,
    {
        match self {
            Command::Assignment(t, a) => {
                let idx = match t {
                    Target::Variable(_) => tset_empty(),
                    Target::Array(_, idx) => idx.fv(),
                };
                let srcs = tset_union(copy_targets(implicit), idx);
                let srcs = tset_union(srcs, a.fv());
                let into = t.copy_indexed().unit();
                flows_into(&srcs, &into)
            },
            Command::Skip => tflows_empty(),
            Command::If(c) => guards_sec_exec(c, implicit),
            Command::Loop(c) => guards_sec_exec(c, implicit),
            Command::EnrichedLoop(_, c) => guards_sec_exec(c, implicit),
            Command::Annotated(_, c, _) => c.sec(implicit),
            Command::Break => tflows_empty(),
            Command::Continue => tflows_empty(),
        }
    }

    /// The flows of the command.
    pub fn flows(&self) -> (r: Vec<Flow<Target<()>>>)
        ensures
            tflows_wf(r@),
            tflows(r@) == cmd_sec(*self, Set::empty()),
    {
        let none = tset_empty();
        self.sec(&none)
    }
}

/// More implicit flows give more flows: where `i1` is a subset of `i2`, the
/// flows of `c` under `i1` are among those under `i2`.
pub proof fn lemma_cmd_sec_monotone(c: Command, i1: Set<TKey>, i2: Set<TKey>)
    requires
        i1.subset_of(i2),
    ensures
        cmd_sec(c, i1).subset_of(cmd_sec(c, i2)),
    decreases c,
{
    match c {
        Command::Assignment(t, a) => {
            assert(cmd_sec(c, i1).subset_of(cmd_sec(c, i2)));
        },
        Command::If(gs) => lemma_guards_sec_monotone(gs@, i1, i2),
        Command::Loop(gs) => lemma_guards_sec_monotone(gs@, i1, i2),
        Command::EnrichedLoop(_, gs) => lemma_guards_sec_monotone(gs@, i1, i2),
        Command::Annotated(_, cs, _) => lemma_cmds_sec_monotone(cs.0@, i1, i2),
        _ => {},
    }
}

/// More implicit flows give more flows, for a sequence of commands.
pub proof fn lemma_cmds_sec_monotone(cs: Seq<Command>, i1: Set<TKey>, i2: Set<TKey>)
    requires
        i1.subset_of(i2),
    ensures
        cmds_sec(cs, i1).subset_of(cmds_sec(cs, i2)),
    decreases cs,
{
    if cs.len() > 0 {
        lemma_cmds_sec_monotone(cs.drop_last(), i1, i2);
        lemma_cmd_sec_monotone(cs.last(), i1, i2);
    }
}

/// More implicit flows give more flows, for the body of a guarded command.
pub proof fn lemma_body_sec_monotone(g: Guard, i1: Set<TKey>, i2: Set<TKey>)
    requires
        i1.subset_of(i2),
    ensures
        body_sec(g, i1).subset_of(body_sec(g, i2)),
    decreases g,
{
    lemma_cmds_sec_monotone(g.1.0@, i1, i2);
}

/// More implicit flows give more flows, for guarded commands.
pub proof fn lemma_guards_sec_monotone(gs: Seq<Guard>, i1: Set<TKey>, i2: Set<TKey>)
    requires
        i1.subset_of(i2),
    ensures
        guards_sec(gs, i1).subset_of(guards_sec(gs, i2)),
    decreases gs,
{
    if gs.len() > 0 {
        lemma_guards_sec_monotone(gs.drop_last(), i1, i2);
        lemma_body_sec_monotone(gs.last(), i1.union(guards_read(gs)), i2.union(guards_read(gs)));
    }
}

/// Every flow of a program ends in a target that the program assigns: the
/// flows of `cs` go into the targets of its assignments.
pub open spec fn assigned(c: Command) -> Set<TKey>
    decreases c,
{
    match c {
        Command::Assignment(t, _) => set![tkey(t)],
        Command::If(gs) => guards_assigned(gs@),
        Command::Loop(gs) => guards_assigned(gs@),
        Command::EnrichedLoop(_, gs) => guards_assigned(gs@),
        Command::Annotated(_, cs, _) => cmds_assigned(cs.0@),
        _ => Set::empty(),
    }
}

/// The targets assigned by a sequence of commands.
pub open spec fn cmds_assigned(cs: Seq<Command>) -> Set<TKey>
    decreases cs,
{
    if cs.len() == 0 {
        Set::empty()
    } else {
        cmds_assigned(cs.drop_last()).union(assigned(cs.last()))
    }
}

/// The targets assigned by the body of a guarded command.
pub open spec fn body_assigned(g: Guard) -> Set<TKey>
    decreases g,
{
    cmds_assigned(g.1.0@)
}

/// The targets assigned by guarded commands.
pub open spec fn guards_assigned(gs: Seq<Guard>) -> Set<TKey>
    decreases gs,
{
    if gs.len() == 0 {
        Set::empty()
    } else {
        guards_assigned(gs.drop_last()).union(body_assigned(gs.last()))
    }
}

/// Information only flows into what is assigned: every flow of `c` ends in
/// a target that `c` assigns.
pub proof fn lemma_cmd_sec_into_assigned(c: Command, imp: Set<TKey>, f: (TKey, TKey))
    requires
        cmd_sec(c, imp).contains(f),
    ensures
        assigned(c).contains(f.1),
    decreases c,
{
    match c {
        Command::If(gs) => lemma_guards_sec_into_assigned(gs@, imp, f),
        Command::Loop(gs) => lemma_guards_sec_into_assigned(gs@, imp, f),
        Command::EnrichedLoop(_, gs) => lemma_guards_sec_into_assigned(gs@, imp, f),
        Command::Annotated(_, cs, _) => lemma_cmds_sec_into_assigned(cs.0@, imp, f),
        _ => {},
    }
}

/// Information only flows into what is assigned, for a sequence.
pub proof fn lemma_cmds_sec_into_assigned(cs: Seq<Command>, imp: Set<TKey>, f: (TKey, TKey))
    requires
        cmds_sec(cs, imp).contains(f),
    ensures
        cmds_assigned(cs).contains(f.1),
    decreases cs,
{
    if cs.len() > 0 {
        if cmds_sec(cs.drop_last(), imp).contains(f) {
            lemma_cmds_sec_into_assigned(cs.drop_last(), imp, f);
        } else {
            lemma_cmd_sec_into_assigned(cs.last(), imp, f);
        }
    }
}

/// Information only flows into what is assigned, for a body.
pub proof fn lemma_body_sec_into_assigned(g: Guard, imp: Set<TKey>, f: (TKey, TKey))
    requires
        body_sec(g, imp).contains(f),
    ensures
        body_assigned(g).contains(f.1),
    decreases g,
{
    lemma_cmds_sec_into_assigned(g.1.0@, imp, f);
}

/// Information only flows into what is assigned, for guarded commands.
pub proof fn lemma_guards_sec_into_assigned(gs: Seq<Guard>, imp: Set<TKey>, f: (TKey, TKey))
    requires
        guards_sec(gs, imp).contains(f),
    ensures
        guards_assigned(gs).contains(f.1),
    decreases gs,
{
    if gs.len() > 0 {
        if guards_sec(gs.drop_last(), imp).contains(f) {
            lemma_guards_sec_into_assigned(gs.drop_last(), imp, f);
        } else {
            lemma_body_sec_into_assigned(gs.last(), imp.union(guards_read(gs)), f);
        }
    }
}

} // verus!
