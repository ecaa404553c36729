//! Testing two programs for the same behaviour: both are run in lock step,
//! each taking its first possible step, from the same initial memories.
use vstd::prelude::*;

use super::interpreter::{exec_defined, exec_mem, exec_nexts, Execution, ExecutionV, InterpreterMemory, MemoryV};
use super::pg::{Edge, ProgramGraph};
use crate::validation::ValidationResult;
use vstd::string::*;

verus! {

/// How many steps each run may take.
pub const N_STEPS: u32 = 10;

/// Both executions take their first possible step, `n` times or until both
/// are stuck; `None` where one is stuck and the other is not.
pub open spec fn lockstep(e1: ExecutionV, e2: ExecutionV, g1: Seq<Edge>, g2: Seq<Edge>, n: nat) -> Option<
    (ExecutionV, ExecutionV),
>
    decreases n,
{
    if n == 0 {
        Some((e1, e2))
    } else {
        let a = exec_nexts(e1, g1);
        let b = exec_nexts(e2, g2);
        if a.len() > 0 && b.len() > 0 {
            lockstep(a[0], b[0], g1, g2, (n - 1) as nat)
        } else if a.len() == 0 && b.len() == 0 {
            Some((e1, e2))
        } else {
            None
        }
    }
}

/// Every step of the lock-step run is defined.
pub open spec fn lockstep_defined(e1: ExecutionV, e2: ExecutionV, g1: Seq<Edge>, g2: Seq<Edge>, n: nat) -> bool
    decreases n,
{
    &&& exec_defined(e1, g1)
    &&& exec_defined(e2, g2)
    &&& (n > 0 && exec_nexts(e1, g1).len() > 0 && exec_nexts(e2, g2).len() > 0) ==> lockstep_defined(
        exec_nexts(e1, g1)[0],
        exec_nexts(e2, g2)[0],
        g1,
        g2,
        (n - 1) as nat,
    )
}

/// The execution that starts in `m` and has taken no step.
pub open spec fn start(m: MemoryV) -> ExecutionV {
    ExecutionV { initial: m, trace: Seq::empty() }
}

/// From `m`, both programs run alike and end in the same memory.
pub open spec fn agree_on(g1: Seq<Edge>, g2: Seq<Edge>, m: MemoryV) -> bool {
    match lockstep(start(m), start(m), g1, g2, N_STEPS as nat) {
        None => false,
        Some(p) => exec_mem(p.0) == exec_mem(p.1),
    }
}

/// From every memory of `ms`, both programs run alike and end in the same
/// memory.
pub open spec fn agree_on_all(g1: Seq<Edge>, g2: Seq<Edge>, ms: Seq<MemoryV>) -> bool {
    forall|i: int| 0 <= i < ms.len() ==> #[trigger] agree_on(g1, g2, ms[i])
}

/// The first successor of an execution that has one.
fn first_next(nexts: Vec<Execution>) -> (r: Execution)
    requires
        nexts@.len() > 0,
    ensures
        r@ == nexts@[0]@,
{
    let mut nexts = nexts;
    nexts.swap_remove(0)
}

/// Runs both programs in lock step from `m`.
fn agree_from(pg1: &ProgramGraph, pg2: &ProgramGraph, m: &InterpreterMemory) -> (r: bool)
    requires
        lockstep_defined(start(m@), start(m@), pg1.edges@, pg2.edges@, N_STEPS as nat),
    ensures
        r == agree_on(pg1.edges@, pg2.edges@, m@),
{
    let ghost g1 = pg1.edges@;
    let ghost g2 = pg2.edges@;
    let ghost goal = lockstep(start(m@), start(m@), g1, g2, N_STEPS as nat);
    let mut exe1 = Execution::new(m.copy());
    let mut exe2 = Execution::new(m.copy());
    let mut k: u32 = 0;
    while k < N_STEPS
        invariant
            k <= N_STEPS,
            g1 == pg1.edges@,
            g2 == pg2.edges@,
            lockstep(exe1@, exe2@, g1, g2, (N_STEPS - k) as nat) == goal,
            goal == lockstep(start(m@), start(m@), g1, g2, N_STEPS as nat),
            lockstep_defined(exe1@, exe2@, g1, g2, (N_STEPS - k) as nat),
        ensures
            goal == Some((exe1@, exe2@)),
        decreases N_STEPS - k,
    {
        let n1 = exe1.nexts(pg1);
        let n2 = exe2.nexts(pg2);
        proof {
            assert(n1@.len() == exec_nexts(exe1@, g1).len());
            assert(n2@.len() == exec_nexts(exe2@, g2).len());
        }
        if n1.len() > 0 && n2.len() > 0 {
            proof {
                assert(n1@.map_values(|x: Execution| x@)[0] == n1@[0]@);
                assert(n2@.map_values(|x: Execution| x@)[0] == n2@[0]@);
            }
            exe1 = first_next(n1);
            exe2 = first_next(n2);
            k = k + 1;
        } else if n1.len() == 0 && n2.len() == 0 {
            break;
        } else {
            assert(goal is None);
            return false;
        }
    }
    exe1.current_mem().same(exe2.current_mem())
}

/// Whether the two programs behave alike from every one of the initial
/// memories: run in lock step for a bounded number of steps, neither may be
/// stuck where the other is not, and both must end in the same memory.
pub fn check_programs_for_semantic_equivalence(
    pg1: &ProgramGraph,
    pg2: &ProgramGraph,
    assignments: &Vec<InterpreterMemory>,
) -> (r: bool)
    requires
        forall|i: int|
            0 <= i < assignments@.len() ==> lockstep_defined(
                start(#[trigger] assignments@[i]@),
                start(assignments@[i]@),
                pg1.edges@,
                pg2.edges@,
                N_STEPS as nat,
            ),
    ensures
        r == agree_on_all(pg1.edges@, pg2.edges@, assignments@.map_values(|m: InterpreterMemory| m@)),
{
    let ghost ms = assignments@.map_values(|m: InterpreterMemory| m@);
    let mut i: usize = 0;
    while i < assignments.len()
        invariant
            i <= assignments@.len(),
            ms == assignments@.map_values(|m: InterpreterMemory| m@),
            forall|j: int| 0 <= j < i ==> #[trigger] agree_on(pg1.edges@, pg2.edges@, ms[j]),
            forall|j: int|
                0 <= j < assignments@.len() ==> lockstep_defined(
                    start(#[trigger] assignments@[j]@),
                    start(assignments@[j]@),
                    pg1.edges@,
                    pg2.edges@,
                    N_STEPS as nat,
                ),
        decreases assignments@.len() - i,
    {
        if !agree_from(pg1, pg2, &assignments[i]) {
            assert(!agree_on(pg1.edges@, pg2.edges@, ms[i as int]));
            return false;
        }
        i = i + 1;
    }
    true
}

/// The verdict on a pretty-printed program: where it does not parse back
/// (`parse_error` holds how the error reads), or where it does not behave as
/// the program it was printed from, the answer is wrong.
pub fn pretty_verdict(parse_error: Option<String>, equivalent: bool) -> (r: ValidationResult)
    ensures
        match parse_error {
            Some(e) => r matches ValidationResult::Mismatch { reason } && reason@
                == "failed to parse pretty output: "@ + e@,
            None => if equivalent {
                r is CorrectTerminated
            } else {
                r matches ValidationResult::Mismatch { reason } && reason@
                    == "the pretty printed program is not semantically equivalent to the original program"@
            },
        },
{
    match parse_error {
        Some(e) => {
            let mut reason = String::from_str("failed to parse pretty output: ");
            reason.append(e.as_str());
            ValidationResult::Mismatch { reason }
        },
        None => if equivalent {
            ValidationResult::CorrectTerminated
        } else {
            ValidationResult::Mismatch {
                reason: String::from_str(
                    "the pretty printed program is not semantically equivalent to the original program",
                ),
            }
        },
    }
}

} // verus!
