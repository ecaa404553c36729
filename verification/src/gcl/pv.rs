//! Program verification: the weakest preconditions of a program through
//! assignments, conditionals and loops annotated with an invariant, and the
//! checks that each loop invariant has to pass.
use vstd::prelude::*;

use super::ast::{AExpr, AOp, BExpr, Command, Commands, Function, Guard, LogicOp, RelOp, Target};
use super::ast_ext::tkey;
use super::reduce::{aexpr_vars, bexpr_reduce, bexpr_reducible};
use super::simplify::{bexpr_simplifies, bexpr_simplify};
use super::subst::{bexpr_contains, bexpr_subst};
use crate::validation::ValidationResult;
use vstd::string::*;

verus! {

/// The side condition under which `e` is defined: a divisor that mentions a
/// variable is not zero, and the argument of a factorial or a Fibonacci
/// number that mentions a variable is not negative.
pub open spec fn aexpr_def(e: AExpr) -> BExpr
    decreases e,
{
    match e {
        AExpr::Binary(l, op, r) => match op {
            AOp::Divide => nonzero_if_variable(*r),
            _ => BExpr::Logic(Box::new(aexpr_def(*l)), LogicOp::And, Box::new(aexpr_def(*r))),
        },
        AExpr::Minus(m) => aexpr_def(*m),
        AExpr::Function(f) => match f {
            Function::Division(_, r) => nonzero_if_variable(*r),
            Function::Fib(n) => natural_if_variable(*n),
            Function::Fac(n) => natural_if_variable(*n),
            _ => BExpr::Bool(true),
        },
        _ => BExpr::Bool(true),
    }
}

/// `r != 0` where `r` mentions a variable, and `true` otherwise.
pub open spec fn nonzero_if_variable(r: AExpr) -> BExpr {
    if aexpr_vars(r).len() > 0 {
        BExpr::Rel(r, RelOp::Ne, AExpr::Number(0))
    } else {
        BExpr::Bool(true)
    }
}

/// `n >= 0` where `n` mentions a variable, and `true` otherwise.
pub open spec fn natural_if_variable(n: AExpr) -> BExpr {
    if aexpr_vars(n).len() > 0 {
        BExpr::Rel(n, RelOp::Ge, AExpr::Number(0))
    } else {
        BExpr::Bool(true)
    }
}

/// No quantifier occurs in `b`.
pub open spec fn quantifier_free(b: BExpr) -> bool
    decreases b,
{
    match b {
        BExpr::Bool(_) => true,
        BExpr::Rel(_, _, _) => true,
        BExpr::Logic(l, _, r) => quantifier_free(*l) && quantifier_free(*r),
        BExpr::Not(x) => quantifier_free(*x),
        BExpr::Quantified(_, _, _) => false,
    }
}

/// The side condition under which `b` is defined: the side conditions of
/// the operands, combined as `b` combines them.
pub open spec fn bexpr_def(b: BExpr) -> BExpr
    decreases b,
{
    match b {
        BExpr::Bool(_) => b,
        BExpr::Rel(l, _, r) => BExpr::Logic(Box::new(aexpr_def(l)), LogicOp::And, Box::new(aexpr_def(r))),
        BExpr::Logic(l, op, r) => BExpr::Logic(Box::new(bexpr_def(*l)), op, Box::new(bexpr_def(*r))),
        BExpr::Not(x) => BExpr::Not(Box::new(bexpr_def(*x))),
        BExpr::Quantified(_, _, _) => b,
    }
}


/// The precondition of `x := e` with respect to `q`: `q` with `e` in place
/// of `x`, where `q` mentions `x`.
pub open spec fn assign_pre(x: Target<Box<AExpr>>, e: AExpr, q: BExpr) -> BExpr {
    if bexpr_contains(q, tkey(x)) {
        bexpr_subst(q, tkey(x), e)
    } else {
        q
    }
}

/// `b` normalised and simplified.
pub open spec fn tidy(b: BExpr) -> BExpr {
    bexpr_simplify(bexpr_reduce(b))
}

/// `b` can be normalised and then simplified without overflow.
pub open spec fn tidies(b: BExpr) -> bool {
    bexpr_reducible(b) && bexpr_simplifies(bexpr_reduce(b))
}

/// `b` strengthened by its side condition, simplified.
pub open spec fn with_def(b: BExpr) -> BExpr {
    bexpr_simplify(BExpr::Logic(Box::new(b), LogicOp::And, Box::new(bexpr_def(b))))
}

/// `b` can be strengthened by its side condition and simplified.
pub open spec fn with_def_ok(b: BExpr) -> bool {
    quantifier_free(b) && bexpr_simplifies(
        BExpr::Logic(Box::new(b), LogicOp::And, Box::new(bexpr_def(b))),
    )
}

/// The conditions and checks of a single command with respect to the
/// postcondition `q`. The conditions are the intermediate assertions, the
/// last one being the precondition of the command. Loops without an
/// invariant, annotated commands, `break` and `continue` give neither.
pub open spec fn cmd_vc(c: Command, q: BExpr) -> (Seq<BExpr>, Seq<BExpr>)
    decreases c, 0int,
{
    match c {
        Command::Assignment(x, e) => (seq![tidy(assign_pre(x, e, q))], Seq::empty()),
        Command::Skip => (seq![tidy(q)], Seq::empty()),
        Command::If(gs) => (if_vc(gs@, q), Seq::empty()),
        Command::EnrichedLoop(inv, gs) => (bodies_conds(gs@, inv).push(inv), do_checks(gs@, inv, q)),
        _ => (Seq::empty(), Seq::empty()),
    }
}

/// The conditions and checks of `cs` before each condition is strengthened:
/// the commands are taken from the last to the first, each with respect to
/// the last condition so far.
pub open spec fn cmds_raw(cs: Seq<Command>, acc: Seq<BExpr>, chk: Seq<BExpr>) -> (
    Seq<BExpr>,
    Seq<BExpr>,
)
    decreases cs, 0int,
{
    if cs.len() == 0 {
        (acc, chk)
    } else {
        let p = cmd_vc(cs.last(), acc.last());
        cmds_raw(cs.drop_last(), acc + p.0, chk + p.1)
    }
}

/// The conditions and checks of a sequence of commands with respect to the
/// postcondition `q`: the postcondition first and the precondition of the
/// whole sequence last, each strengthened by its side condition.
pub open spec fn cmds_vc(cs: Seq<Command>, q: BExpr) -> (Seq<BExpr>, Seq<BExpr>)
    decreases cs, 1int,
{
    let raw = cmds_raw(cs, seq![q], Seq::empty());
    (raw.0.map_values(|b: BExpr| with_def(b)), raw.1)
}

/// The conditions of the body of `g` with respect to `q`.
pub open spec fn body_conds(g: Guard, q: BExpr) -> Seq<BExpr>
    decreases g, 0int,
{
    cmds_vc(g.1.0@, q).0
}

/// The conditions of the bodies of `gs` with respect to `q`, from the last
/// guarded command to the first.
pub open spec fn bodies_conds(gs: Seq<Guard>, q: BExpr) -> Seq<BExpr>
    decreases gs, 0int,
{
    if gs.len() == 0 {
        Seq::empty()
    } else {
        body_conds(gs.last(), q) + bodies_conds(gs.drop_last(), q)
    }
}

/// `pre && b` for each guarded command `b -> C`, where `pre` is the
/// precondition of `C` with respect to `q`, from the last to the first.
pub open spec fn branch_pres(gs: Seq<Guard>, q: BExpr) -> Seq<BExpr>
    decreases gs, 0int,
{
    if gs.len() == 0 {
        Seq::empty()
    } else {
        seq![BExpr::Logic(Box::new(body_conds(gs.last(), q).last()), LogicOp::And, Box::new(gs.last().0))]
            + branch_pres(gs.drop_last(), q)
    }
}

/// `b || s[0] || s[1] || ...`, grouped to the left.
pub open spec fn or_all(b: BExpr, s: Seq<BExpr>) -> BExpr
    decreases s.len(),
{
    if s.len() == 0 {
        b
    } else {
        BExpr::Logic(Box::new(or_all(b, s.drop_last())), LogicOp::Or, Box::new(s.last()))
    }
}

/// The conditions of `if gs fi` with respect to `q`: those of the bodies,
/// then the disjunction of the branch preconditions, starting from the
/// first branch and going on from the last.
pub open spec fn if_vc(gs: Seq<Guard>, q: BExpr) -> Seq<BExpr>
    decreases gs, 1int,
{
    let pres = branch_pres(gs, q);
    bodies_conds(gs, q).push(or_all(pres.last(), pres.drop_last()))
}

/// The checks of a loop with invariant `inv` and postcondition `q`, from the
/// last guarded command to the first: for each `b -> C`, that
/// `inv && !b ==> q` has no counterexample, and that `inv && b ==> pre` has
/// none, where `pre` is the precondition of `C` with respect to `inv`.
pub open spec fn do_checks(gs: Seq<Guard>, inv: BExpr, q: BExpr) -> Seq<BExpr>
    decreases gs, 0int,
{
    if gs.len() == 0 {
        Seq::empty()
    } else {
        seq![exit_check(inv, gs.last().0, q), body_check(inv, gs.last().0, body_conds(gs.last(), inv).last())]
            + do_checks(gs.drop_last(), inv, q)
    }
}

/// `!((inv && !b) ==> q)`.
pub open spec fn exit_check(inv: BExpr, b: BExpr, q: BExpr) -> BExpr {
    BExpr::Not(
        Box::new(
            BExpr::Logic(
                Box::new(BExpr::Logic(Box::new(inv), LogicOp::And, Box::new(BExpr::Not(Box::new(b))))),
                LogicOp::Implies,
                Box::new(q),
            ),
        ),
    )
}

/// `!((inv && b) ==> pre)`.
pub open spec fn body_check(inv: BExpr, b: BExpr, pre: BExpr) -> BExpr {
    BExpr::Not(
        Box::new(
            BExpr::Logic(
                Box::new(BExpr::Logic(Box::new(inv), LogicOp::And, Box::new(b))),
                LogicOp::Implies,
                Box::new(pre),
            ),
        ),
    )
}

/// Computing the conditions of `c` with respect to `q` does not overflow or
/// fail: every condition that is normalised can be, every conditional has
/// a branch, and every condition that is strengthened has no quantifier.
pub open spec fn cmd_ok(c: Command, q: BExpr) -> bool
    decreases c, 0int,
{
    match c {
        Command::Assignment(x, e) => tidies(assign_pre(x, e, q)),
        Command::Skip => tidies(q),
        Command::If(gs) => gs@.len() > 0 && bodies_ok(gs@, q),
        Command::EnrichedLoop(inv, gs) => bodies_ok(gs@, inv),
        _ => true,
    }
}

/// Computing the conditions of the commands of `cs`, from the last to the
/// first, after the conditions `acc`, does not overflow or fail.
pub open spec fn raw_ok(cs: Seq<Command>, acc: Seq<BExpr>) -> bool
    decreases cs, 0int,
{
    cs.len() == 0 || (cmd_ok(cs.last(), acc.last()) && raw_ok(
        cs.drop_last(),
        acc + cmd_vc(cs.last(), acc.last()).0,
    ))
}

/// Computing the conditions of `cs` with respect to `q` does not overflow
/// or fail.
pub open spec fn cmds_ok(cs: Seq<Command>, q: BExpr) -> bool
    decreases cs, 1int,
{
    &&& raw_ok(cs, seq![q])
    &&& forall|i: int|
        0 <= i < cmds_raw(cs, seq![q], Seq::empty()).0.len() ==> #[trigger] with_def_ok(
            cmds_raw(cs, seq![q], Seq::empty()).0[i],
        )
}

/// Computing the conditions of the body of `g` does not overflow or fail.
pub open spec fn body_ok(g: Guard, q: BExpr) -> bool
    decreases g, 0int,
{
    cmds_ok(g.1.0@, q)
}

/// Computing the conditions of the bodies of `gs` does not overflow or fail.
pub open spec fn bodies_ok(gs: Seq<Guard>, q: BExpr) -> bool
    decreases gs, 0int,
{
    gs.len() == 0 || (body_ok(gs.last(), q) && bodies_ok(gs.drop_last(), q))
}

/// The conditions and checks so far are kept, and more may follow.
pub proof fn lemma_raw_len(cs: Seq<Command>, acc: Seq<BExpr>, chk: Seq<BExpr>)
    ensures
        cmds_raw(cs, acc, chk).0.len() >= acc.len(),
        cmds_raw(cs, acc, chk).1.len() >= chk.len(),
        cmds_raw(cs, acc, chk).0.take(acc.len() as int) == acc,
        cmds_raw(cs, acc, chk).1.take(chk.len() as int) == chk,
    decreases cs.len(),
{
    if cs.len() > 0 {
        let p = cmd_vc(cs.last(), acc.last());
        lemma_raw_len(cs.drop_last(), acc + p.0, chk + p.1);
        let r = cmds_raw(cs, acc, chk);
        assert(r.0.take(acc.len() as int) =~= r.0.take((acc + p.0).len() as int).take(acc.len() as int));
        assert(r.1.take(chk.len() as int) =~= r.1.take((chk + p.1).len() as int).take(chk.len() as int));
    }
}

/// Sequential composition: the conditions and checks of `a; b` are those of
/// `b`, continued by those of `a` with respect to the last condition of `b`.
pub proof fn lemma_raw_seq(a: Seq<Command>, b: Seq<Command>, acc: Seq<BExpr>, chk: Seq<BExpr>)
    ensures
        cmds_raw(a + b, acc, chk) == cmds_raw(a, cmds_raw(b, acc, chk).0, cmds_raw(b, acc, chk).1),
    decreases b.len(),
{
    if b.len() == 0 {
        assert(a + b =~= a);
    } else {
        let p = cmd_vc(b.last(), acc.last());
        assert((a + b).drop_last() =~= a + b.drop_last());
        assert((a + b).last() == b.last());
        lemma_raw_seq(a, b.drop_last(), acc + p.0, chk + p.1);
    }
}

/// The postcondition comes first among the conditions of a sequence of
/// commands, strengthened by its side condition, and there is at least one
/// condition.
pub proof fn lemma_post_first(cs: Seq<Command>, q: BExpr)
    ensures
        cmds_vc(cs, q).0.len() >= 1,
        cmds_vc(cs, q).0[0] == with_def(q),
{
    lemma_raw_len(cs, seq![q], Seq::empty());
    let r = cmds_raw(cs, seq![q], Seq::empty());
    assert(r.0[0] == r.0.take(1)[0]);
}

/// What the verification of a program produces: the intermediate
/// conditions, the precondition of the whole program last, and the formulas
/// that must have no model for the loop invariants to hold.
pub struct PvOutput {
    pub conds: Vec<BExpr>,
    pub checks: Vec<BExpr>,
}

/// A program with its pre- and postcondition.
pub struct PvInput {
    pub pre: BExpr,
    pub post: BExpr,
    pub cmds: Commands,
}

impl Commands {
    /// The conditions and checks of the program with respect to the
    /// postcondition `cond`.
    pub fn ver_con(&self, cond: BExpr) -> (r: PvOutput)
        requires
            cmds_ok(self.0@, cond),
        ensures
            r.conds@ == cmds_vc(self.0@, cond).0,
            r.checks@ == cmds_vc(self.0@, cond).1,
        decreases *self,
    {
        let ghost q = cond;
        let ghost all = cmds_raw(self.0@, seq![q], Seq::empty());
        let mut cs: Vec<BExpr> = Vec::new();
        cs.push(cond);
        let mut checks: Vec<BExpr> = Vec::new();
        let mut n: usize = self.0.len();
        proof {
            assert(self.0@.take(n as int) =~= self.0@);
            assert(cs@ =~= seq![q]);
            assert(checks@ =~= Seq::<BExpr>::empty());
        }
        while n > 0
            invariant
                n <= self.0@.len(),
                cs@.len() > 0,
                cmds_raw(self.0@.take(n as int), cs@, checks@) == all,
                raw_ok(self.0@.take(n as int), cs@),
            decreases n,
        {
            proof {
                assert(self.0@.take(n as int).drop_last() =~= self.0@.take(n - 1));
                assert(self.0@.take(n as int).last() == self.0@[n - 1]);
            }
            n = n - 1;
            let last = cs[cs.len() - 1].clone();
            let mut p = self.0[n].ver_con(last);
            cs.append(&mut p.conds);
            checks.append(&mut p.checks);
        }
        proof {
            assert(self.0@.take(0) =~= Seq::<Command>::empty());
        }
        let mut conds: Vec<BExpr> = Vec::new();
        let mut i: usize = 0;
        while i < cs.len()
            invariant
                i <= cs@.len(),
                cs@ == all.0,
                conds@ =~= all.0.take(i as int).map_values(|b: BExpr| with_def(b)),
                forall|j: int| 0 <= j < all.0.len() ==> #[trigger] with_def_ok(all.0[j]),
            decreases cs@.len() - i,
        {
            proof {
                assert(with_def_ok(all.0[i as int]));
            }
            let b = BExpr::Logic(Box::new(cs[i].clone()), LogicOp::And, Box::new(cs[i].def()));
            conds.push(b.simplify());
            i = i + 1;
        }
        proof {
            assert(all.0.take(i as int) =~= all.0);
        }
        PvOutput { conds, checks }
    }
}

/// The conditions of the body of `g` with respect to `q`.
fn body_vc(g: &Guard, q: BExpr) -> (r: Vec<BExpr>)
    requires
        body_ok(*g, q),
    ensures
        r@ == body_conds(*g, q),
        r@.len() > 0,
    decreases *g,
{
    proof {
        lemma_raw_len(g.1.0@, seq![q], Seq::empty());
    }
    let p = g.1.ver_con(q);
    p.conds
}

impl Command {
    /// The conditions and checks of the command with respect to the
    /// postcondition `c`.
    pub fn ver_con(&self, c: BExpr) -> (r: PvOutput)
        requires
            cmd_ok(*self, c),
        ensures
            r.conds@ == cmd_vc(*self, c).0,
            r.checks@ == cmd_vc(*self, c).1,
        decreases *self,
    {
        match self {
            Command::Assignment(x, e) => {
                let b = if c.contains_var(x) {
                    c.subst_var(x, e)
                } else {
                    c
                };
                let mut conds: Vec<BExpr> = Vec::new();
                conds.push(b.reduce().simplify());
                proof {
                    assert(conds@ =~= seq![tidy(assign_pre(*x, *e, c))]);
                }
                PvOutput { conds, checks: Vec::new() }
            },
            Command::Skip => {
                let mut conds: Vec<BExpr> = Vec::new();
                conds.push(c.reduce().simplify());
                proof {
                    assert(conds@ =~= seq![tidy(c)]);
                }
                PvOutput { conds, checks: Vec::new() }
            },
            Command::If(guards) => PvOutput { conds: ver_con_if(guards, c), checks: Vec::new() },
            Command::EnrichedLoop(inv, guards) => ver_con_do(guards, inv.clone(), c),
            _ => PvOutput { conds: Vec::new(), checks: Vec::new() },
        }
    }
}

/// The conditions of `if guards fi` with respect to the postcondition `c`.
pub fn ver_con_if(guards: &Vec<Guard>, c: BExpr) -> (r: Vec<BExpr>)
    requires
        guards@.len() > 0,
        bodies_ok(guards@, c),
    ensures
        r@ == if_vc(guards@, c),
    decreases guards@,
{
    let ghost gs = guards@;
    let mut wpv: Vec<BExpr> = Vec::new();
    let mut wpvl: Vec<BExpr> = Vec::new();
    let mut n: usize = guards.len();
    proof {
        assert(gs.take(n as int) =~= gs);
    }
    while n > 0
        invariant
            n <= gs.len(),
            gs == guards@,
            wpvl@ + bodies_conds(gs.take(n as int), c) == bodies_conds(gs, c),
            wpv@ + branch_pres(gs.take(n as int), c) == branch_pres(gs, c),
            wpv@.len() == gs.len() - n,
            bodies_ok(gs.take(n as int), c),
        decreases n,
    {
        proof {
            assert(gs.take(n as int).drop_last() =~= gs.take(n - 1));
            assert(gs.take(n as int).last() == gs[n - 1]);
        }
        n = n - 1;
        let mut left = body_vc(&guards[n], c.clone());
        let l = left[left.len() - 1].clone();
        let ghost before = wpvl@;
        let ghost body = left@;
        wpvl.append(&mut left);
        let ghost pres_before = wpv@;
        wpv.push(BExpr::Logic(Box::new(l), LogicOp::And, Box::new(guards[n].0.clone())));
        proof {
            assert(before + body + bodies_conds(gs.take(n as int), c) =~= before + (body
                + bodies_conds(gs.take(n as int), c)));
            assert(wpv@ + branch_pres(gs.take(n as int), c) =~= pres_before + (seq![wpv@.last()]
                + branch_pres(gs.take(n as int), c)));
        }
    }
    proof {
        assert(gs.take(0) =~= Seq::<Guard>::empty());
        assert(wpv@ =~= branch_pres(gs, c));
        assert(wpvl@ =~= bodies_conds(gs, c));
    }
    let ghost pres = wpv@;
    let first = match wpv.pop() {
        Some(b) => b,
        None => BExpr::Bool(false),
    };
    let mut wpif = first.clone();
    let mut i: usize = 0;
    proof {
        assert(wpv@.take(0) =~= Seq::<BExpr>::empty());
    }
    while i < wpv.len()
        invariant
            i <= wpv@.len(),
            wpv@ == pres.drop_last(),
            wpif == or_all(first, wpv@.take(i as int)),
        decreases wpv@.len() - i,
    {
        proof {
            assert(wpv@.take(i + 1).drop_last() =~= wpv@.take(i as int));
        }
        wpif = BExpr::Logic(Box::new(wpif), LogicOp::Or, Box::new(wpv[i].clone()));
        i = i + 1;
    }
    proof {
        assert(wpv@.take(i as int) =~= wpv@);
    }
    wpvl.push(wpif);
    wpvl
}

/// The conditions and checks of `do {i} guards od` with respect to the
/// postcondition `c`: the conditions of the bodies with respect to the
/// invariant, then the invariant itself.
pub fn ver_con_do(guards: &Vec<Guard>, i: BExpr, c: BExpr) -> (r: PvOutput)
    requires
        bodies_ok(guards@, i),
    ensures
        r.conds@ == bodies_conds(guards@, i).push(i),
        r.checks@ == do_checks(guards@, i, c),
    decreases guards@,
{
    let ghost gs = guards@;
    let mut wpv: Vec<BExpr> = Vec::new();
    let mut checks: Vec<BExpr> = Vec::new();
    let mut n: usize = guards.len();
    proof {
        assert(gs.take(n as int) =~= gs);
    }
    while n > 0
        invariant
            n <= gs.len(),
            gs == guards@,
            wpv@ + bodies_conds(gs.take(n as int), i) == bodies_conds(gs, i),
            checks@ + do_checks(gs.take(n as int), i, c) == do_checks(gs, i, c),
            bodies_ok(gs.take(n as int), i),
        decreases n,
    {
        proof {
            assert(gs.take(n as int).drop_last() =~= gs.take(n - 1));
            assert(gs.take(n as int).last() == gs[n - 1]);
        }
        n = n - 1;
        let mut wp = body_vc(&guards[n], i.clone());
        let wpb = wp[wp.len() - 1].clone();
        let ghost before = wpv@;
        let ghost body = wp@;
        wpv.append(&mut wp);
        let ghost checks_before = checks@;
        let exit = BExpr::Not(
            Box::new(
                BExpr::Logic(
                    Box::new(
                        BExpr::Logic(
                            Box::new(i.clone()),
                            LogicOp::And,
                            Box::new(BExpr::Not(Box::new(guards[n].0.clone()))),
                        ),
                    ),
                    LogicOp::Implies,
                    Box::new(c.clone()),
                ),
            ),
        );
        checks.push(exit);
        let stay = BExpr::Not(
            Box::new(
                BExpr::Logic(
                    Box::new(BExpr::Logic(Box::new(i.clone()), LogicOp::And, Box::new(guards[n].0.clone()))),
                    LogicOp::Implies,
                    Box::new(wpb),
                ),
            ),
        );
        checks.push(stay);
        proof {
            assert(before + body + bodies_conds(gs.take(n as int), i) =~= before + (body
                + bodies_conds(gs.take(n as int), i)));
            assert(checks@ + do_checks(gs.take(n as int), i, c) =~= checks_before + (seq![
                exit_check(i, gs[n as int].0, c),
                body_check(i, gs[n as int].0, body_conds(gs[n as int], i).last()),
            ] + do_checks(gs.take(n as int), i, c)));
        }
    }
    proof {
        assert(gs.take(0) =~= Seq::<Guard>::empty());
        assert(wpv@ =~= bodies_conds(gs, i));
        assert(checks@ =~= do_checks(gs, i, c));
    }
    wpv.push(i);
    PvOutput { conds: wpv, checks }
}

/// What a satisfiability check answered.
#[derive(Clone, Copy, PartialEq, Eq, Structural)]
pub enum SatOutcome {
    Sat,
    Unsat,
    Unknown,
}

/// The complaint about the first check, in order, that was not shown to
/// have no model, if any: the check is either not valid or undecided.
pub open spec fn first_complaint(answers: Seq<(SatOutcome, String)>) -> Option<Seq<char>>
    decreases answers.len(),
{
    if answers.len() == 0 {
        None
    } else {
        match answers[0].0 {
            SatOutcome::Sat => Some(answers[0].1@ + " is not valid"@),
            SatOutcome::Unknown => Some(answers[0].1@ + " is unknown to Z3"@),
            SatOutcome::Unsat => first_complaint(answers.drop_first()),
        }
    }
}

/// The complaint about the first check that was not shown to have no model.
pub fn complaint(answers: &Vec<(SatOutcome, String)>) -> (r: Option<String>)
    ensures
        match first_complaint(answers@) {
            None => r is None,
            Some(c) => r matches Some(s) && s@ == c,
        },
{
    let mut i: usize = 0;
    proof {
        assert(answers@.skip(0) =~= answers@);
    }
    while i < answers.len()
        invariant
            i <= answers@.len(),
            first_complaint(answers@.skip(i as int)) == first_complaint(answers@),
        decreases answers@.len() - i,
    {
        proof {
            assert(answers@.skip(i as int).drop_first() =~= answers@.skip(i + 1));
        }
        match answers[i].0 {
            SatOutcome::Sat => {
                let mut s = answers[i].1.clone();
                s.append(" is not valid");
                return Some(s);
            },
            SatOutcome::Unknown => {
                let mut s = answers[i].1.clone();
                s.append(" is unknown to Z3");
                return Some(s);
            },
            SatOutcome::Unsat => {},
        }
        i = i + 1;
    }
    None
}

/// The verdict on a program's verification conditions, given what the
/// solver answered for the loop checks, in order (the answers may stop after
/// the first that is not `Unsat`), and for the negation of "the given
/// precondition implies the computed one". `pre_text` and `cond_text` are
/// the two preconditions as text.
pub fn pv_verdict(
    answers: &Vec<(SatOutcome, String)>,
    pre: SatOutcome,
    pre_text: &str,
    cond_text: &str,
) -> (r: ValidationResult)
    ensures
        pre == SatOutcome::Sat ==> (r matches ValidationResult::Mismatch { reason } && reason@
            == "Weakest precondition does not contain the user-given precondition"@),
        pre == SatOutcome::Unsat ==> match first_complaint(answers@) {
            None => r is CorrectTerminated,
            Some(c) => r matches ValidationResult::Mismatch { reason } && reason@ == c,
        },
        pre == SatOutcome::Unknown ==> (r matches ValidationResult::Mismatch { reason } && reason@
            == "Z3 does not know if "@ + pre_text@ + " => "@ + cond_text@ + " is valid"@),
{
    let res = complaint(answers);
    match pre {
        SatOutcome::Sat => ValidationResult::Mismatch {
            reason: String::from_str("Weakest precondition does not contain the user-given precondition"),
        },
        SatOutcome::Unsat => match res {
            Some(reason) => ValidationResult::Mismatch { reason },
            None => ValidationResult::CorrectTerminated,
        },
        SatOutcome::Unknown => {
            let mut reason = String::from_str("Z3 does not know if ");
            reason.append(pre_text);
            reason.append(" => ");
            reason.append(cond_text);
            reason.append(" is valid");
            ValidationResult::Mismatch { reason }
        },
    }
}

impl AExpr {
    /// The condition under which the expression is defined.
    pub fn def(&self) -> (r: BExpr)
        ensures
            r == aexpr_def(*self),
        decreases *self,
    {
        match self {
            AExpr::Binary(l, op, r) => match op {
                AOp::Divide => nonzero_if_variable_exec(r),
                _ => BExpr::Logic(Box::new(l.def()), LogicOp::And, Box::new(r.def())),
            },
            AExpr::Minus(m) => m.def(),
            AExpr::Function(f) => match f {
                Function::Division(_, r) => nonzero_if_variable_exec(r),
                Function::Fib(n) => natural_if_variable_exec(n),
                Function::Fac(n) => natural_if_variable_exec(n),
                _ => BExpr::Bool(true),
            },
            _ => BExpr::Bool(true),
        }
    }
}

fn nonzero_if_variable_exec(r: &AExpr) -> (b: BExpr)
    ensures
        b == nonzero_if_variable(*r),
{
    if r.find_vars().len() > 0 {
        BExpr::Rel(r.clone(), RelOp::Ne, AExpr::Number(0))
    } else {
        BExpr::Bool(true)
    }
}

fn natural_if_variable_exec(n: &AExpr) -> (b: BExpr)
    ensures
        b == natural_if_variable(*n),
{
    if n.find_vars().len() > 0 {
        BExpr::Rel(n.clone(), RelOp::Ge, AExpr::Number(0))
    } else {
        BExpr::Bool(true)
    }
}

impl BExpr {
    /// The condition under which the expression is defined.
    pub fn def(&self) -> (r: BExpr)
        requires
            quantifier_free(*self),
        ensures
            r == bexpr_def(*self),
        decreases *self,
    {
        match self {
            BExpr::Bool(b) => BExpr::Bool(*b),
            BExpr::Rel(l, _, r) => BExpr::Logic(Box::new(l.def()), LogicOp::And, Box::new(r.def())),
            BExpr::Logic(l, op, r) => BExpr::Logic(Box::new(l.def()), *op, Box::new(r.def())),
            BExpr::Not(x) => BExpr::Not(Box::new(x.def())),
            BExpr::Quantified(_, _, _) => BExpr::Bool(true),
        }
    }
}

} // verus!
