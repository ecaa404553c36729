//! A small RISC-V machine: words, registers, labels, instructions, and a
//! virtual machine that runs a program on a memory of words.
use vstd::prelude::*;
use vstd::string::*;

use la_arena::{ArenaMap, Idx, RawIdx};

verus! {

/// The index of a value allocated in an arena.
#[verifier::external_type_specification]
#[verifier::external_body]
#[verifier::reject_recursive_types(T)]
pub struct ExIdx<T>(Idx<T>);

/// A map from arena indexes to values.
#[verifier::external_type_specification]
#[verifier::external_body]
#[verifier::reject_recursive_types(IDX)]
#[verifier::reject_recursive_types(V)]
pub struct ExArenaMap<IDX, V>(ArenaMap<IDX, V>);

/// A machine word.
#[derive(Clone, Copy, PartialEq, Eq, Structural, Debug)]
pub struct Word(pub i32);

/// A label of the program.
pub struct Label(pub String);

/// A register, by name.
pub struct Reg(pub String);

impl Clone for Label {
    fn clone(&self) -> (r: Self)
        ensures
            r == *self,
    {
        Label(self.0.clone())
    }
}

impl Clone for Reg {
    fn clone(&self) -> (r: Self)
        ensures
            r == *self,
    {
        Reg(self.0.clone())
    }
}

impl Reg {
    /// Register `t0`.
    pub fn t0() -> (r: Reg)
        ensures
            r.0@ == "t0"@,
    {
        Reg(String::from_str("t0"))
    }

    /// Register `t1`.
    pub fn t1() -> (r: Reg)
        ensures
            r.0@ == "t1"@,
    {
        Reg(String::from_str("t1"))
    }

    /// Register `t2`.
    pub fn t2() -> (r: Reg)
        ensures
            r.0@ == "t2"@,
    {
        Reg(String::from_str("t2"))
    }

    /// Register `a0`.
    pub fn a0() -> (r: Reg)
        ensures
            r.0@ == "a0"@,
    {
        Reg(String::from_str("a0"))
    }

    /// Register `a1`.
    pub fn a1() -> (r: Reg)
        ensures
            r.0@ == "a1"@,
    {
        Reg(String::from_str("a1"))
    }

    /// Register `a2`.
    pub fn a2() -> (r: Reg)
        ensures
            r.0@ == "a2"@,
    {
        Reg(String::from_str("a2"))
    }

    /// Register `a3`.
    pub fn a3() -> (r: Reg)
        ensures
            r.0@ == "a3"@,
    {
        Reg(String::from_str("a3"))
    }

    /// Register `a4`.
    pub fn a4() -> (r: Reg)
        ensures
            r.0@ == "a4"@,
    {
        Reg(String::from_str("a4"))
    }

    /// Register `a5`.
    pub fn a5() -> (r: Reg)
        ensures
            r.0@ == "a5"@,
    {
        Reg(String::from_str("a5"))
    }

    /// Register `a6`.
    pub fn a6() -> (r: Reg)
        ensures
            r.0@ == "a6"@,
    {
        Reg(String::from_str("a6"))
    }

    /// Register `a7`, which holds the number of a system call.
    pub fn a7() -> (r: Reg)
        ensures
            r.0@ == "a7"@,
    {
        Reg(String::from_str("a7"))
    }
}

/// A position in the program: the index of an instruction.
#[derive(Clone, Copy, PartialEq, Eq, Structural, Debug)]
pub struct ProgramPoint(pub u32);

impl ProgramPoint {
    /// The next position.
    pub fn inc(self) -> (r: ProgramPoint)
        requires
            self.0 < u32::MAX,
        ensures
            r.0 == self.0 + 1,
    {
        ProgramPoint(self.0 + 1)
    }
}

/// The numbers of system calls.
pub struct CallNumber;

impl CallNumber {
    /// The system call that ends the program.
    pub fn exit() -> (r: Word)
        ensures
            r == Word(10),
    {
        Word(10)
    }
}

/// How a step of the machine ended.
#[derive(Clone, Copy, PartialEq, Eq, Structural, Debug)]
pub enum StepResult {
    Stepped,
    Stuck,
    Exit,
}

impl StepResult {
    /// The name of the result.
    pub fn name(&self) -> (r: &'static str)
        ensures
            r@ == (match *self {
                StepResult::Exit => "exit"@,
                StepResult::Stuck => "stuck"@,
                StepResult::Stepped => "ok"@,
            }),
    {
        match self {
            StepResult::Exit => "exit",
            StepResult::Stuck => "stuck",
            StepResult::Stepped => "ok",
        }
    }
}

/// The instructions, over registers `R`, data labels `L` and jump targets
/// `P`: `li rd, w`; `lw rd, l`; `la rd, l`; `mv rd, rs`;
/// `sw rs2, offset(rs1)`; `add`, `sub`, `mul`, `div rd, rs1, rs2`;
/// `neg rd, rs`; `j p`; `beq`, `bne`, `blt rs1, rs2, p`; `ebreak`; `ecall`.
#[derive(Clone, Copy, Debug)]
pub enum Instruction<R, L, P> {
    Li(R, Word),
    Lw(R, L),
    La(R, L),
    Mv(R, R),
    Sw(R, Word, R),
    Add(R, R, R),
    Neg(R, R),
    Sub(R, R, R),
    Mul(R, R, R),
    Div(R, R, R),
    J(P),
    Beq(R, R, P),
    Bne(R, R, P),
    Blt(R, R, P),
    Ebreak,
    Ecall,
}

/// `f`, `g` and `h` may be called on the registers, labels and targets of
/// the instruction.
pub open spec fn map_requires<R, L, P, S, T, U, F: Fn(R) -> S, G: Fn(L) -> T, H: Fn(P) -> U>(
    i: Instruction<R, L, P>,
    f: F,
    g: G,
    h: H,
) -> bool {
    match i {
        Instruction::Li(r, _) => call_requires(f, (r,)),
        Instruction::Lw(r, l) | Instruction::La(r, l) => call_requires(f, (r,)) && call_requires(
            g,
            (l,),
        ),
        Instruction::Mv(a, b) | Instruction::Neg(a, b) | Instruction::Sw(a, _, b) => call_requires(
            f,
            (a,),
        ) && call_requires(f, (b,)),
        Instruction::Add(a, b, c) | Instruction::Sub(a, b, c) | Instruction::Mul(a, b, c)
        | Instruction::Div(a, b, c) => call_requires(f, (a,)) && call_requires(f, (b,))
            && call_requires(f, (c,)),
        Instruction::J(p) => call_requires(h, (p,)),
        Instruction::Beq(a, b, p) | Instruction::Bne(a, b, p) | Instruction::Blt(a, b, p) => {
            call_requires(f, (a,)) && call_requires(f, (b,)) && call_requires(h, (p,))
        },
        Instruction::Ebreak | Instruction::Ecall => true,
    }
}

/// `j` is `i` with `f`, `g` and `h` applied to its registers, labels and
/// targets.
pub open spec fn mapped<R, L, P, S, T, U, F: Fn(R) -> S, G: Fn(L) -> T, H: Fn(P) -> U>(
    i: Instruction<R, L, P>,
    j: Instruction<S, T, U>,
    f: F,
    g: G,
    h: H,
) -> bool {
    match (i, j) {
        (Instruction::Li(r, v), Instruction::Li(r2, v2)) => call_ensures(f, (r,), r2) && v == v2,
        (Instruction::Lw(r, l), Instruction::Lw(r2, l2)) => call_ensures(f, (r,), r2)
            && call_ensures(g, (l,), l2),
        (Instruction::La(r, l), Instruction::La(r2, l2)) => call_ensures(f, (r,), r2)
            && call_ensures(g, (l,), l2),
        (Instruction::Mv(a, b), Instruction::Mv(a2, b2)) => call_ensures(f, (a,), a2)
            && call_ensures(f, (b,), b2),
        (Instruction::Sw(a, o, b), Instruction::Sw(a2, o2, b2)) => call_ensures(f, (a,), a2) && o
            == o2 && call_ensures(f, (b,), b2),
        (Instruction::Add(a, b, c), Instruction::Add(a2, b2, c2)) => call_ensures(f, (a,), a2)
            && call_ensures(f, (b,), b2) && call_ensures(f, (c,), c2),
        (Instruction::Neg(a, b), Instruction::Neg(a2, b2)) => call_ensures(f, (a,), a2)
            && call_ensures(f, (b,), b2),
        (Instruction::Sub(a, b, c), Instruction::Sub(a2, b2, c2)) => call_ensures(f, (a,), a2)
            && call_ensures(f, (b,), b2) && call_ensures(f, (c,), c2),
        (Instruction::Mul(a, b, c), Instruction::Mul(a2, b2, c2)) => call_ensures(f, (a,), a2)
            && call_ensures(f, (b,), b2) && call_ensures(f, (c,), c2),
        (Instruction::Div(a, b, c), Instruction::Div(a2, b2, c2)) => call_ensures(f, (a,), a2)
            && call_ensures(f, (b,), b2) && call_ensures(f, (c,), c2),
        (Instruction::J(p), Instruction::J(p2)) => call_ensures(h, (p,), p2),
        (Instruction::Beq(a, b, p), Instruction::Beq(a2, b2, p2)) => call_ensures(f, (a,), a2)
            && call_ensures(f, (b,), b2) && call_ensures(h, (p,), p2),
        (Instruction::Bne(a, b, p), Instruction::Bne(a2, b2, p2)) => call_ensures(f, (a,), a2)
            && call_ensures(f, (b,), b2) && call_ensures(h, (p,), p2),
        (Instruction::Blt(a, b, p), Instruction::Blt(a2, b2, p2)) => call_ensures(f, (a,), a2)
            && call_ensures(f, (b,), b2) && call_ensures(h, (p,), p2),
        (Instruction::Ebreak, Instruction::Ebreak) => true,
        (Instruction::Ecall, Instruction::Ecall) => true,
        _ => false,
    }
}

impl<R, L, P> Instruction<R, L, P> {
    /// The instruction with `f` applied to its registers, `g` to its labels
    /// and `h` to its jump targets.
    pub fn map<S, T, U, F: Fn(R) -> S, G: Fn(L) -> T, H: Fn(P) -> U>(self, f: F, g: G, h: H) -> (r:
        Instruction<S, T, U>)
        requires
            map_requires(self, f, g, h),
        ensures
            mapped(self, r, f, g, h),
    {
        match self {
            Instruction::Li(r, v) => Instruction::Li(f(r), v),
            Instruction::Lw(r, l) => Instruction::Lw(f(r), g(l)),
            Instruction::La(r, l) => Instruction::La(f(r), g(l)),
            Instruction::Mv(a, b) => Instruction::Mv(f(a), f(b)),
            Instruction::Sw(a, o, b) => Instruction::Sw(f(a), o, f(b)),
            Instruction::Add(a, b, c) => Instruction::Add(f(a), f(b), f(c)),
            Instruction::Neg(a, b) => Instruction::Neg(f(a), f(b)),
            Instruction::Sub(a, b, c) => Instruction::Sub(f(a), f(b), f(c)),
            Instruction::Mul(a, b, c) => Instruction::Mul(f(a), f(b), f(c)),
            Instruction::Div(a, b, c) => Instruction::Div(f(a), f(b), f(c)),
            Instruction::J(l) => Instruction::J(h(l)),
            Instruction::Beq(a, b, l) => Instruction::Beq(f(a), f(b), h(l)),
            Instruction::Bne(a, b, l) => Instruction::Bne(f(a), f(b), h(l)),
            Instruction::Blt(a, b, l) => Instruction::Blt(f(a), f(b), h(l)),
            Instruction::Ebreak => Instruction::Ebreak,
            Instruction::Ecall => Instruction::Ecall,
        }
    }
}

/// `x + y`, wrapping around.
pub open spec fn wrap_add(x: i32, y: i32) -> i32 {
    vstd::wrapping::i32_specs::wrapping_add(x, y)
}

/// `x - y`, wrapping around.
pub open spec fn wrap_sub(x: i32, y: i32) -> i32 {
    vstd::wrapping::i32_specs::wrapping_sub(x, y)
}

/// `x * y`, wrapping around.
pub open spec fn wrap_mul(x: i32, y: i32) -> i32 {
    vstd::wrapping::i32_specs::wrapping_mul(x, y)
}

/// `-x`, wrapping around: the least word is its own negation.
pub open spec fn wrap_neg(x: i32) -> i32 {
    if x == i32::MIN {
        x
    } else {
        -x as i32
    }
}

/// `x / y` rounded toward zero, wrapping around: the least word divided by
/// -1 is itself.
pub open spec fn wrap_div(x: i32, y: i32) -> i32 {
    match x.checked_div(y) {
        Some(q) => q,
        None => i32::MIN,
    }
}

impl Word {
    /// The sum, wrapping around.
    pub fn wrapping_add(self, rhs: Word) -> (r: Word)
        ensures
            r.0 == wrap_add(self.0, rhs.0),
    {
        Word(self.0.wrapping_add(rhs.0))
    }

    /// The difference, wrapping around.
    pub fn wrapping_sub(self, rhs: Word) -> (r: Word)
        ensures
            r.0 == wrap_sub(self.0, rhs.0),
    {
        Word(self.0.wrapping_sub(rhs.0))
    }

    /// The product, wrapping around.
    pub fn wrapping_mul(self, rhs: Word) -> (r: Word)
        ensures
            r.0 == wrap_mul(self.0, rhs.0),
    {
        Word(self.0.wrapping_mul(rhs.0))
    }

    /// The quotient rounded toward zero, wrapping around.
    pub fn wrapping_div(self, rhs: Word) -> (r: Word)
        requires
            rhs.0 != 0,
        ensures
            r.0 == wrap_div(self.0, rhs.0),
    {
        match self.0.checked_div(rhs.0) {
            Some(q) => Word(q),
            None => Word(i32::MIN),
        }
    }

    /// The negation, wrapping around.
    pub fn wrapping_neg(self) -> (r: Word)
        ensures
            r.0 == wrap_neg(self.0),
    {
        if self.0 == i32::MIN {
            self
        } else {
            Word(-self.0)
        }
    }
}

/// The words held by the registers, by register index.
pub uninterp spec fn reg_words(m: ArenaMap<Idx<Reg>, Word>) -> Map<u32, i32>;

/// No register set.
pub open spec fn no_regs() -> Map<u32, i32> {
    Map::empty()
}

/// An empty map (`ArenaMap::new`).
#[verifier::external_body]
fn regs_empty() -> (r: ArenaMap<Idx<Reg>, Word>)
    ensures
        reg_words(r) == no_regs(),
{
    ArenaMap::new()
}

/// `ArenaMap::insert`: the register with index `reg` now holds `w`; the
/// others are unchanged.
#[verifier::external_body]
fn regs_insert(m: &mut ArenaMap<Idx<Reg>, Word>, reg: u32, w: Word)
    ensures
        reg_words(*final(m)) == reg_words(*old(m)).insert(reg, w.0),
{
    m.insert(Idx::from_raw(RawIdx::from_u32(reg)), w);
}

/// `ArenaMap::get`: the word of the register with index `reg`, where it has
/// one.
#[verifier::external_body]
fn regs_get(m: &ArenaMap<Idx<Reg>, Word>, reg: u32) -> (r: Option<Word>)
    ensures
        r == (if reg_words(*m).contains_key(reg) {
            Some(Word(reg_words(*m)[reg]))
        } else {
            None
        }),
{
    m.get(Idx::from_raw(RawIdx::from_u32(reg))).copied()
}

/// The memory of the machine: its registers and its heap of words.
pub struct Memory {
    pub regs: ArenaMap<Idx<Reg>, Word>,
    pub heap: Vec<Word>,
}

impl Memory {
    /// A memory whose registers are all unset and whose heap is `heap`.
    pub fn new(heap: Vec<Word>) -> (r: Memory)
        ensures
            reg_words(r.regs) == no_regs(),
            r.heap@ == heap@,
    {
        Memory { regs: regs_empty(), heap }
    }

    /// The word of a register; an unset register reads as zero.
    pub fn reg(&self, reg: u32) -> (r: Word)
        ensures
            r.0 == (if reg_words(self.regs).contains_key(reg) {
                reg_words(self.regs)[reg]
            } else {
                0
            }),
    {
        match regs_get(&self.regs, reg) {
            Some(w) => w,
            None => Word(0),
        }
    }
}

/// A program ready to run: its instructions, with registers as indexes, data
/// labels as heap addresses and jump targets as positions, and the index of
/// register `a7`.
pub struct Binary {
    pub instr: Vec<Instruction<u32, Word, ProgramPoint>>,
    pub a7: u32,
}

/// The abstract state of the machine: the position of the next instruction,
/// the registers that are set, and the heap.
#[verifier::ext_equal]
pub struct MachineV {
    pub pc: u32,
    pub regs: Map<u32, i32>,
    pub heap: Seq<i32>,
}

/// The machine: a position in the program and a memory.
pub struct VM {
    pub pc: ProgramPoint,
    pub memory: Memory,
}

impl View for VM {
    type V = MachineV;

    open spec fn view(&self) -> MachineV {
        MachineV {
            pc: self.pc.0,
            regs: reg_words(self.memory.regs),
            heap: self.memory.heap@.map_values(|w: Word| w.0),
        }
    }
}

/// `m` with register `r` holding `v`.
pub open spec fn set_reg(m: MachineV, r: u32, v: i32) -> MachineV {
    MachineV { pc: m.pc, regs: m.regs.insert(r, v), heap: m.heap }
}

/// `m` with the position `pc`.
pub open spec fn jump(m: MachineV, pc: u32) -> MachineV {
    MachineV { pc, regs: m.regs, heap: m.heap }
}

/// The address is within the heap.
pub open spec fn in_heap(m: MachineV, a: i32) -> bool {
    0 <= a < m.heap.len()
}

/// What one step does: the instruction at the position runs after the
/// position moves on; there is none past the end of the program. A division
/// by zero, `ebreak` and a system call other than exit are stuck.
pub open spec fn step_spec(instrs: Seq<Instruction<u32, Word, ProgramPoint>>, a7: u32, m: MachineV) -> (
    StepResult,
    MachineV,
) {
    if !(m.pc < instrs.len()) {
        (StepResult::Stuck, m)
    } else {
        let m1 = jump(m, (m.pc + 1) as u32);
        let rs = m.regs;
        match instrs[m.pc as int] {
            Instruction::Li(r, w) => (StepResult::Stepped, set_reg(m1, r, w.0)),
            Instruction::Lw(r, l) => (StepResult::Stepped, set_reg(m1, r, m.heap[l.0 as int])),
            Instruction::La(r, l) => (StepResult::Stepped, set_reg(m1, r, l.0)),
            Instruction::Mv(r, a) => (StepResult::Stepped, set_reg(m1, r, rs[a])),
            Instruction::Sw(r, o, a) => (
                StepResult::Stepped,
                MachineV {
                    pc: m1.pc,
                    regs: m1.regs,
                    heap: m1.heap.update(wrap_add(o.0, rs[a]) as int, rs[r]),
                },
            ),
            Instruction::Add(r, a, b) => (StepResult::Stepped, set_reg(m1, r, wrap_add(rs[a], rs[b]))),
            Instruction::Neg(r, a) => (StepResult::Stepped, set_reg(m1, r, wrap_neg(rs[a]))),
            Instruction::Sub(r, a, b) => (StepResult::Stepped, set_reg(m1, r, wrap_sub(rs[a], rs[b]))),
            Instruction::Mul(r, a, b) => (StepResult::Stepped, set_reg(m1, r, wrap_mul(rs[a], rs[b]))),
            Instruction::Div(r, a, b) => if rs[b] == 0 {
                (StepResult::Stuck, m1)
            } else {
                (StepResult::Stepped, set_reg(m1, r, wrap_div(rs[a], rs[b])))
            },
            Instruction::J(p) => (StepResult::Stepped, jump(m1, p.0)),
            Instruction::Beq(a, b, p) => (
                StepResult::Stepped,
                if rs[a] == rs[b] {
                    jump(m1, p.0)
                } else {
                    m1
                },
            ),
            Instruction::Bne(a, b, p) => (
                StepResult::Stepped,
                if rs[a] != rs[b] {
                    jump(m1, p.0)
                } else {
                    m1
                },
            ),
            Instruction::Blt(a, b, p) => (
                StepResult::Stepped,
                if rs[a] < rs[b] {
                    jump(m1, p.0)
                } else {
                    m1
                },
            ),
            Instruction::Ebreak => (StepResult::Stuck, m1),
            Instruction::Ecall => if rs[a7] == 10 {
                (StepResult::Exit, m1)
            } else {
                (StepResult::Stuck, m1)
            },
        }
    }
}

/// One step does not panic: the position can move on, and every register
/// that the instruction reads or overwrites in place is set and every heap
/// address it uses is within the heap.
pub open spec fn step_ok(instrs: Seq<Instruction<u32, Word, ProgramPoint>>, a7: u32, m: MachineV) -> bool {
    m.pc < instrs.len() ==> {
        let rs = m.regs;
        &&& m.pc < u32::MAX
        &&& match instrs[m.pc as int] {
            Instruction::Lw(_, l) => in_heap(m, l.0),
            Instruction::Mv(_, a) | Instruction::Neg(_, a) => rs.contains_key(a),
            Instruction::Sw(r, o, a) => rs.contains_key(a) && rs.contains_key(r) && in_heap(
                m,
                wrap_add(o.0, rs[a]),
            ),
            Instruction::Add(_, a, b) | Instruction::Sub(_, a, b) | Instruction::Mul(_, a, b)
            | Instruction::Beq(a, b, _) | Instruction::Bne(a, b, _) | Instruction::Blt(a, b, _) => rs.contains_key(a)
                && rs.contains_key(b),
            Instruction::Div(r, a, b) => rs.contains_key(b) && (rs[b] != 0 ==> rs.contains_key(a)
                && rs.contains_key(r)),
            Instruction::Ecall => rs.contains_key(a7),
            _ => true,
        }
    }
}

/// What at most `n` steps do: they stop at the first step that exits or is
/// stuck.
pub open spec fn run_spec(
    instrs: Seq<Instruction<u32, Word, ProgramPoint>>,
    a7: u32,
    m: MachineV,
    n: nat,
) -> (StepResult, MachineV)
    decreases n,
{
    if n == 0 {
        (StepResult::Stepped, m)
    } else {
        let (res, m2) = step_spec(instrs, a7, m);
        if res == StepResult::Stepped {
            run_spec(instrs, a7, m2, (n - 1) as nat)
        } else {
            (res, m2)
        }
    }
}

/// Running `a + b` steps is running `a` steps and then, where the machine
/// did not stop, `b` more from where it got.
pub proof fn lemma_run_split(
    instrs: Seq<Instruction<u32, Word, ProgramPoint>>,
    a7: u32,
    m: MachineV,
    a: nat,
    b: nat,
)
    ensures
        run_spec(instrs, a7, m, a + b) == (if run_spec(instrs, a7, m, a).0 == StepResult::Stepped {
            run_spec(instrs, a7, run_spec(instrs, a7, m, a).1, b)
        } else {
            run_spec(instrs, a7, m, a)
        }),
    decreases a,
{
    if a > 0 {
        let (res, m2) = step_spec(instrs, a7, m);
        if res == StepResult::Stepped {
            lemma_run_split(instrs, a7, m2, (a - 1) as nat, b);
            assert((a + b - 1) as nat == ((a - 1) as nat + b) as nat);
        }
    }
}

/// No step of `run_spec` panics.
pub open spec fn run_ok(instrs: Seq<Instruction<u32, Word, ProgramPoint>>, a7: u32, m: MachineV, n: nat) -> bool
    decreases n,
{
    n > 0 ==> {
        &&& step_ok(instrs, a7, m)
        &&& step_spec(instrs, a7, m).0 == StepResult::Stepped ==> run_ok(
            instrs,
            a7,
            step_spec(instrs, a7, m).1,
            (n - 1) as nat,
        )
    }
}

fn read_reg(m: &Memory, r: u32) -> (w: Word)
    requires
        reg_words(m.regs).contains_key(r),
    ensures
        w.0 == reg_words(m.regs)[r],
{
    regs_get(&m.regs, r).unwrap()
}

impl VM {
    /// The machine at the start of the program, with memory `init_mem`.
    pub fn new(init_mem: Memory) -> (r: VM)
        ensures
            r@ == (MachineV {
                pc: 0,
                regs: reg_words(init_mem.regs),
                heap: init_mem.heap@.map_values(|w: Word| w.0),
            }),
    {
        VM { pc: ProgramPoint(0), memory: init_mem }
    }

    /// Runs the instruction at the position.
    pub fn step(&mut self, bin: &Binary) -> (r: StepResult)
        requires
            step_ok(bin.instr@, bin.a7, old(self)@),
        ensures
            (r, final(self)@) == step_spec(bin.instr@, bin.a7, old(self)@),
    {
        let ghost m = self@;
        if (self.pc.0 as usize) < bin.instr.len() {
            let inst = bin.instr[self.pc.0 as usize];
            self.pc = self.pc.inc();
            match inst {
                Instruction::Li(reg, word) => {
                    regs_insert(&mut self.memory.regs, reg, word);
                },
                Instruction::Lw(reg, label) => {
                    let w = self.memory.heap[label.0 as usize];
                    regs_insert(&mut self.memory.regs, reg, w);
                },
                Instruction::La(reg, label) => {
                    regs_insert(&mut self.memory.regs, reg, label);
                },
                Instruction::Mv(reg, reg1) => {
                    let w = read_reg(&self.memory, reg1);
                    regs_insert(&mut self.memory.regs, reg, w);
                },
                Instruction::Sw(reg, o, reg1) => {
                    let idx = o.wrapping_add(read_reg(&self.memory, reg1));
                    let w = read_reg(&self.memory, reg);
                    self.memory.heap.set(idx.0 as usize, w);
                    proof {
                        assert(self@.heap =~= m.heap.update(idx.0 as int, w.0));
                    }
                },
                Instruction::Add(reg, reg1, reg2) => {
                    let w = read_reg(&self.memory, reg1).wrapping_add(read_reg(&self.memory, reg2));
                    regs_insert(&mut self.memory.regs, reg, w);
                },
                Instruction::Neg(reg, reg1) => {
                    let w = read_reg(&self.memory, reg1).wrapping_neg();
                    regs_insert(&mut self.memory.regs, reg, w);
                },
                Instruction::Sub(reg, reg1, reg2) => {
                    let w = read_reg(&self.memory, reg1).wrapping_sub(read_reg(&self.memory, reg2));
                    regs_insert(&mut self.memory.regs, reg, w);
                },
                Instruction::Mul(reg, reg1, reg2) => {
                    let w = read_reg(&self.memory, reg1).wrapping_mul(read_reg(&self.memory, reg2));
                    regs_insert(&mut self.memory.regs, reg, w);
                },
                Instruction::Div(reg, reg1, reg2) => {
                    let r = read_reg(&self.memory, reg2);
                    if r == Word(0) {
                        return StepResult::Stuck;
                    } else {
                        let w = read_reg(&self.memory, reg1).wrapping_div(r);
                        regs_insert(&mut self.memory.regs, reg, w);
                    }
                },
                Instruction::J(pc) => {
                    self.pc = pc;
                },
                Instruction::Beq(reg, reg1, pc) => {
                    if read_reg(&self.memory, reg) == read_reg(&self.memory, reg1) {
                        self.pc = pc;
                    }
                },
                Instruction::Bne(reg, reg1, pc) => {
                    if read_reg(&self.memory, reg) != read_reg(&self.memory, reg1) {
                        self.pc = pc;
                    }
                },
                Instruction::Blt(reg, reg1, pc) => {
                    if read_reg(&self.memory, reg).0 < read_reg(&self.memory, reg1).0 {
                        self.pc = pc;
                    }
                },
                Instruction::Ebreak => {
                    return StepResult::Stuck;
                },
                Instruction::Ecall => {
                    if read_reg(&self.memory, bin.a7) == CallNumber::exit() {
                        return StepResult::Exit;
                    } else {
                        return StepResult::Stuck;
                    }
                },
            }
            StepResult::Stepped
        } else {
            StepResult::Stuck
        }
    }

    /// Runs at most `steps` steps, stopping where the program exits or is
    /// stuck.
    pub fn run(&mut self, bin: &Binary, steps: usize) -> (r: StepResult)
        requires
            run_ok(bin.instr@, bin.a7, old(self)@, steps as nat),
        ensures
            (r, final(self)@) == run_spec(bin.instr@, bin.a7, old(self)@, steps as nat),
    {
        let ghost goal = run_spec(bin.instr@, bin.a7, self@, steps as nat);
        let mut i: usize = 0;
        while i < steps
            invariant
                i <= steps,
                run_spec(bin.instr@, bin.a7, self@, (steps - i) as nat) == goal,
                goal == run_spec(bin.instr@, bin.a7, old(self)@, steps as nat),
                run_ok(bin.instr@, bin.a7, self@, (steps - i) as nat),
            decreases steps - i,
        {
            let res = self.step(bin);
            match res {
                StepResult::Exit => {
                    return StepResult::Exit;
                },
                StepResult::Stuck => {
                    return StepResult::Stuck;
                },
                StepResult::Stepped => {},
            }
            i = i + 1;
        }
        StepResult::Stepped
    }
}

} // verus!
