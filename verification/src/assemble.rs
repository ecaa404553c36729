//! Assembling a RISC-V source file into a binary and an initial memory:
//! registers and labels are numbered in the order in which they first
//! occur, data labels become heap addresses holding their initial words,
//! and jump labels become instruction positions.
use vstd::prelude::*;
use vstd::string::*;

use crate::calc::{int_text, int_to_string};
use crate::riscv::{no_regs, reg_words, Binary, CallNumber, Instruction, Label, Memory, ProgramPoint, Reg, Word};

verus! {

/// An item of the text section: a label, or an instruction over register
/// names and labels.
pub enum TextItem {
    Label(Label),
    Inst(Instruction<Reg, Label, Label>),
}

/// A source file: the data section, each label with its initial word, and
/// the text section.
pub struct RiscVFile {
    pub data: Vec<(Label, Word)>,
    pub text: Vec<TextItem>,
}

/// The number of words of the heap.
pub const HEAP_WORDS: usize = 65536;

/// The table with `x` added at the end, where it is not there yet.
pub open spec fn intern(t: Seq<Seq<char>>, x: Seq<char>) -> Seq<Seq<char>> {
    if t.contains(x) {
        t
    } else {
        t.push(x)
    }
}

/// The table with each of `xs` added in order.
pub open spec fn intern_all(t: Seq<Seq<char>>, xs: Seq<Seq<char>>) -> Seq<Seq<char>>
    decreases xs.len(),
{
    if xs.len() == 0 {
        t
    } else {
        intern(intern_all(t, xs.drop_last()), xs.last())
    }
}

/// The position of `x` in a table that holds each name once; -1 where it
/// is not there.
pub open spec fn position(t: Seq<Seq<char>>, x: Seq<char>) -> int {
    if t.contains(x) {
        choose|k: int| 0 <= k < t.len() && t[k] == x
    } else {
        -1
    }
}

/// The registers an instruction names, in order.
pub open spec fn inst_regs(i: Instruction<Reg, Label, Label>) -> Seq<Seq<char>> {
    match i {
        Instruction::Li(r, _) => seq![r.0@],
        Instruction::Lw(r, _) => seq![r.0@],
        Instruction::La(r, _) => seq![r.0@],
        Instruction::Mv(a, b) => seq![a.0@, b.0@],
        Instruction::Sw(a, _, b) => seq![a.0@, b.0@],
        Instruction::Add(a, b, c) => seq![a.0@, b.0@, c.0@],
        Instruction::Neg(a, b) => seq![a.0@, b.0@],
        Instruction::Sub(a, b, c) => seq![a.0@, b.0@, c.0@],
        Instruction::Mul(a, b, c) => seq![a.0@, b.0@, c.0@],
        Instruction::Div(a, b, c) => seq![a.0@, b.0@, c.0@],
        Instruction::J(_) => Seq::empty(),
        Instruction::Beq(a, b, _) => seq![a.0@, b.0@],
        Instruction::Bne(a, b, _) => seq![a.0@, b.0@],
        Instruction::Blt(a, b, _) => seq![a.0@, b.0@],
        Instruction::Ebreak => Seq::empty(),
        Instruction::Ecall => Seq::empty(),
    }
}

/// The labels an instruction names.
pub open spec fn inst_labels(i: Instruction<Reg, Label, Label>) -> Seq<Seq<char>> {
    match i {
        Instruction::Lw(_, l) => seq![l.0@],
        Instruction::La(_, l) => seq![l.0@],
        Instruction::J(p) => seq![p.0@],
        Instruction::Beq(_, _, p) => seq![p.0@],
        Instruction::Bne(_, _, p) => seq![p.0@],
        Instruction::Blt(_, _, p) => seq![p.0@],
        _ => Seq::empty(),
    }
}

/// The registers the items name, in order.
pub open spec fn text_regs(items: Seq<TextItem>) -> Seq<Seq<char>>
    decreases items.len(),
{
    if items.len() == 0 {
        Seq::empty()
    } else {
        text_regs(items.drop_last()) + match items.last() {
            TextItem::Label(_) => Seq::empty(),
            TextItem::Inst(i) => inst_regs(i),
        }
    }
}

/// The labels the items define or name, in order.
pub open spec fn text_labels(items: Seq<TextItem>) -> Seq<Seq<char>>
    decreases items.len(),
{
    if items.len() == 0 {
        Seq::empty()
    } else {
        text_labels(items.drop_last()) + match items.last() {
            TextItem::Label(l) => seq![l.0@],
            TextItem::Inst(i) => inst_labels(i),
        }
    }
}

/// The labels of the data section, in order.
pub open spec fn data_labels(data: Seq<(Label, Word)>) -> Seq<Seq<char>> {
    data.map_values(|d: (Label, Word)| d.0.0@)
}

/// The registers of the file, by number: `a7` first.
pub open spec fn asm_regs(f: RiscVFile) -> Seq<Seq<char>> {
    intern_all(seq!["a7"@], text_regs(f.text@))
}

/// The labels of the file, by number: those of the data section first.
pub open spec fn asm_labels(f: RiscVFile) -> Seq<Seq<char>> {
    intern_all(Seq::empty(), data_labels(f.data@) + text_labels(f.text@))
}

/// The number of instructions among the items.
pub open spec fn count_insts(items: Seq<TextItem>) -> nat
    decreases items.len(),
{
    if items.len() == 0 {
        0
    } else {
        count_insts(items.drop_last()) + match items.last() {
            TextItem::Label(_) => 0nat,
            TextItem::Inst(_) => 1nat,
        }
    }
}

/// The position of the instruction after the last definition of label
/// `x`, where there is one.
pub open spec fn label_pos(items: Seq<TextItem>, x: Seq<char>) -> Option<nat>
    decreases items.len(),
{
    if items.len() == 0 {
        None
    } else {
        match items.last() {
            TextItem::Label(l) if l.0@ == x => Some(count_insts(items.drop_last())),
            _ => label_pos(items.drop_last(), x),
        }
    }
}

/// The address of a data label: its number; zero for a label that the data
/// section does not define.
pub open spec fn data_address(f: RiscVFile, x: Seq<char>) -> int {
    if data_labels(f.data@).contains(x) {
        position(asm_labels(f), x)
    } else {
        0
    }
}

/// The target of a jump label: the position after its last definition;
/// zero for a label that the text section does not define.
pub open spec fn jump_target(f: RiscVFile, x: Seq<char>) -> nat {
    match label_pos(f.text@, x) {
        Some(p) => p,
        None => 0,
    }
}

/// The number of a register of the file.
pub open spec fn reg_number(f: RiscVFile, r: Reg) -> u32 {
    position(asm_regs(f), r.0@) as u32
}

/// The assembled form of an instruction of the file.
pub open spec fn assemble_inst(f: RiscVFile, i: Instruction<Reg, Label, Label>) -> Instruction<u32, Word, ProgramPoint> {
    let r = |x: Reg| reg_number(f, x);
    let d = |l: Label| Word(data_address(f, l.0@) as i32);
    let p = |l: Label| ProgramPoint(jump_target(f, l.0@) as u32);
    match i {
        Instruction::Li(a, w) => Instruction::Li(r(a), w),
        Instruction::Lw(a, l) => Instruction::Lw(r(a), d(l)),
        Instruction::La(a, l) => Instruction::La(r(a), d(l)),
        Instruction::Mv(a, b) => Instruction::Mv(r(a), r(b)),
        Instruction::Sw(a, o, b) => Instruction::Sw(r(a), o, r(b)),
        Instruction::Add(a, b, c) => Instruction::Add(r(a), r(b), r(c)),
        Instruction::Neg(a, b) => Instruction::Neg(r(a), r(b)),
        Instruction::Sub(a, b, c) => Instruction::Sub(r(a), r(b), r(c)),
        Instruction::Mul(a, b, c) => Instruction::Mul(r(a), r(b), r(c)),
        Instruction::Div(a, b, c) => Instruction::Div(r(a), r(b), r(c)),
        Instruction::J(l) => Instruction::J(p(l)),
        Instruction::Beq(a, b, l) => Instruction::Beq(r(a), r(b), p(l)),
        Instruction::Bne(a, b, l) => Instruction::Bne(r(a), r(b), p(l)),
        Instruction::Blt(a, b, l) => Instruction::Blt(r(a), r(b), p(l)),
        Instruction::Ebreak => Instruction::Ebreak,
        Instruction::Ecall => Instruction::Ecall,
    }
}

/// The assembled instructions of the items, in order.
pub open spec fn asm_instrs(f: RiscVFile, items: Seq<TextItem>) -> Seq<Instruction<u32, Word, ProgramPoint>>
    decreases items.len(),
{
    if items.len() == 0 {
        Seq::empty()
    } else {
        asm_instrs(f, items.drop_last()) + match items.last() {
            TextItem::Label(_) => Seq::empty(),
            TextItem::Inst(i) => seq![assemble_inst(f, i)],
        }
    }
}

/// The initial heap: zero everywhere, then each word of the data section at
/// the address of its label, in order.
pub open spec fn asm_heap(f: RiscVFile, data: Seq<(Label, Word)>) -> Seq<i32>
    decreases data.len(),
{
    if data.len() == 0 {
        Seq::new(HEAP_WORDS as nat, |k: int| 0i32)
    } else {
        asm_heap(f, data.drop_last()).update(position(asm_labels(f), data.last().0.0@), data.last().1.0)
    }
}

/// The names of a table.
pub open spec fn names_of(t: Seq<String>) -> Seq<Seq<char>> {
    t.map_values(|s: String| s@)
}

proof fn lemma_intern_props(t: Seq<Seq<char>>, x: Seq<char>)
    requires
        t.no_duplicates(),
    ensures
        intern(t, x).no_duplicates(),
        intern(t, x).contains(x),
        intern(t, x).len() <= t.len() + 1,
        t.is_prefix_of(intern(t, x)),
{
    if !t.contains(x) {
        let u = t.push(x);
        assert forall|a: int, b: int| 0 <= a < b < u.len() implies u[a] != u[b] by {
            if b == t.len() {
                assert(t.contains(t[a]));
            }
        }
        assert(u[t.len() as int] == x);
        assert(u.subrange(0, t.len() as int) =~= t);
    } else {
        assert(t.subrange(0, t.len() as int) =~= t);
    }
}

proof fn lemma_intern_all_props(t: Seq<Seq<char>>, xs: Seq<Seq<char>>)
    requires
        t.no_duplicates(),
    ensures
        intern_all(t, xs).no_duplicates(),
        intern_all(t, xs).len() <= t.len() + xs.len(),
        t.is_prefix_of(intern_all(t, xs)),
        forall|k: int| 0 <= k < xs.len() ==> intern_all(t, xs).contains(#[trigger] xs[k]),
    decreases xs.len(),
{
    if xs.len() > 0 {
        let u = intern_all(t, xs.drop_last());
        lemma_intern_all_props(t, xs.drop_last());
        lemma_intern_props(u, xs.last());
        assert forall|k: int| 0 <= k < xs.len() implies intern_all(t, xs).contains(#[trigger] xs[k]) by {
            if k < xs.len() - 1 {
                assert(u.contains(xs.drop_last()[k]));
                let j = choose|j: int| 0 <= j < u.len() && u[j] == xs[k];
                assert(intern(u, xs.last())[j] == xs[k]);
            }
        }
    }
}

proof fn lemma_intern_all_append(t: Seq<Seq<char>>, xs: Seq<Seq<char>>, ys: Seq<Seq<char>>)
    ensures
        intern_all(t, xs + ys) == intern_all(intern_all(t, xs), ys),
    decreases ys.len(),
{
    if ys.len() == 0 {
        assert(xs + ys =~= xs);
    } else {
        assert((xs + ys).drop_last() =~= xs + ys.drop_last());
        assert((xs + ys).last() == ys.last());
        lemma_intern_all_append(t, xs, ys.drop_last());
    }
}

/// In a table that holds each name once, the position of a name is the
/// index where it stands, and it stays so as the table grows.
proof fn lemma_position(t: Seq<Seq<char>>, u: Seq<Seq<char>>, k: int)
    requires
        u.no_duplicates(),
        t.is_prefix_of(u),
        0 <= k < t.len(),
    ensures
        position(u, t[k]) == k,
        position(t, t[k]) == k,
{
    assert(u[k] == t[k]);
    assert(u.contains(t[k]));
    assert(t.contains(t[k]));
    let j = choose|j: int| 0 <= j < u.len() && u[j] == t[k];
    assert(j == k);
    let j2 = choose|j: int| 0 <= j < t.len() && t[j] == t[k];
    assert(u[j2] == t[j2]);
    assert(j2 == k);
}

/// Adds a name to a table, and gives its position.
fn intern_exec(t: &mut Vec<String>, x: &String) -> (r: u32)
    requires
        names_of(old(t)@).no_duplicates(),
        old(t)@.len() + 1 < u32::MAX,
    ensures
        names_of(final(t)@) == intern(names_of(old(t)@), x@),
        r as int == position(names_of(final(t)@), x@),
{
    let ghost before = names_of(t@);
    let mut i: usize = 0;
    while i < t.len()
        invariant
            i <= t@.len(),
            before == names_of(t@),
            before.no_duplicates(),
            t@.len() + 1 < u32::MAX,
            forall|k: int| 0 <= k < i ==> before[k] != x@,
        decreases t@.len() - i,
    {
        if t[i].eq(x) {
            proof {
                assert(before[i as int] == x@);
                assert(before.contains(x@));
                assert(before.is_prefix_of(before)) by {
                    assert(before.subrange(0, before.len() as int) =~= before);
                }
                lemma_position(before, before, i as int);
            }
            return i as u32;
        }
        i = i + 1;
    }
    proof {
        assert(!before.contains(x@)) by {
            if before.contains(x@) {
                let k = choose|k: int| 0 <= k < before.len() && before[k] == x@;
            }
        }
    }
    let n = t.len();
    t.push(x.clone());
    proof {
        assert(names_of(t@) =~= before.push(x@));
        lemma_intern_props(before, x@);
        assert(names_of(t@)[n as int] == x@);
        lemma_position(names_of(t@), names_of(t@), n as int);
    }
    n as u32
}

/// The position of a name in a table that holds each name once, where it
/// is there.
fn lookup(t: &Vec<String>, x: &String) -> (r: Option<u32>)
    requires
        names_of(t@).no_duplicates(),
        t@.len() < u32::MAX,
    ensures
        match r {
            Some(k) => names_of(t@).contains(x@) && k as int == position(names_of(t@), x@),
            None => !names_of(t@).contains(x@),
        },
{
    let ghost s = names_of(t@);
    let mut i: usize = 0;
    while i < t.len()
        invariant
            i <= t@.len(),
            s == names_of(t@),
            s.no_duplicates(),
            t@.len() < u32::MAX,
            forall|k: int| 0 <= k < i ==> s[k] != x@,
        decreases t@.len() - i,
    {
        if t[i].eq(x) {
            proof {
                assert(s[i as int] == x@);
                assert(s.subrange(0, s.len() as int) =~= s);
                lemma_position(s, s, i as int);
            }
            return Some(i as u32);
        }
        i = i + 1;
    }
    proof {
        if s.contains(x@) {
            let k = choose|k: int| 0 <= k < s.len() && s[k] == x@;
        }
    }
    None
}

/// The registers an item names, in order.
pub open spec fn item_regs(it: TextItem) -> Seq<Seq<char>> {
    match it {
        TextItem::Label(_) => Seq::empty(),
        TextItem::Inst(i) => inst_regs(i),
    }
}

/// The labels an item defines or names.
pub open spec fn item_labels(it: TextItem) -> Seq<Seq<char>> {
    match it {
        TextItem::Label(l) => seq![l.0@],
        TextItem::Inst(i) => inst_labels(i),
    }
}

/// Every register an item names is among those of the items.
proof fn lemma_text_regs_has(items: Seq<TextItem>, i: int, k: int)
    requires
        0 <= i < items.len(),
        0 <= k < item_regs(items[i]).len(),
    ensures
        text_regs(items).contains(item_regs(items[i])[k]),
    decreases items.len(),
{
    let d = items.drop_last();
    let tail = item_regs(items.last());
    assert(text_regs(items) == text_regs(d) + tail);
    if i == items.len() - 1 {
        assert(text_regs(items)[text_regs(d).len() + k] == tail[k]);
    } else {
        assert(d[i] == items[i]);
        lemma_text_regs_has(d, i, k);
        let j = choose|j: int| 0 <= j < text_regs(d).len() && text_regs(d)[j] == item_regs(items[i])[k];
        assert(text_regs(items)[j] == item_regs(items[i])[k]);
    }
}

/// Every label an item defines or names is among those of the items.
proof fn lemma_text_labels_has(items: Seq<TextItem>, i: int, k: int)
    requires
        0 <= i < items.len(),
        0 <= k < item_labels(items[i]).len(),
    ensures
        text_labels(items).contains(item_labels(items[i])[k]),
    decreases items.len(),
{
    let d = items.drop_last();
    let tail = item_labels(items.last());
    assert(text_labels(items) == text_labels(d) + tail);
    if i == items.len() - 1 {
        assert(text_labels(items)[text_labels(d).len() + k] == tail[k]);
    } else {
        assert(d[i] == items[i]);
        lemma_text_labels_has(d, i, k);
        let j = choose|j: int| 0 <= j < text_labels(d).len() && text_labels(d)[j] == item_labels(items[i])[k];
        assert(text_labels(items)[j] == item_labels(items[i])[k]);
    }
}

proof fn lemma_intern_one(t: Seq<Seq<char>>, a: Seq<char>)
    ensures
        intern_all(t, seq![a]) == intern(t, a),
{
    reveal_with_fuel(intern_all, 2);
    assert(seq![a].drop_last() =~= Seq::<Seq<char>>::empty());
    assert(seq![a].last() == a);
}

/// Numbers one register, then another.
fn intern_two(t: &mut Vec<String>, a: &String, b: &String)
    requires
        names_of(old(t)@).no_duplicates(),
        old(t)@.len() + 4 < u32::MAX,
    ensures
        names_of(final(t)@) == intern_all(names_of(old(t)@), seq![a@, b@]),
{
    let ghost t0 = names_of(t@);
    intern_exec(t, a);
    proof {
        lemma_intern_props(t0, a@);
    }
    intern_exec(t, b);
    proof {
        assert(seq![a@, b@].drop_last() =~= seq![a@]);
        lemma_intern_one(t0, a@);
    }
}

/// Numbers three registers in order.
fn intern_three(t: &mut Vec<String>, a: &String, b: &String, c: &String)
    requires
        names_of(old(t)@).no_duplicates(),
        old(t)@.len() + 4 < u32::MAX,
    ensures
        names_of(final(t)@) == intern_all(names_of(old(t)@), seq![a@, b@, c@]),
{
    let ghost t0 = names_of(t@);
    intern_two(t, a, b);
    proof {
        lemma_intern_all_props(t0, seq![a@, b@]);
    }
    intern_exec(t, c);
    proof {
        assert(seq![a@, b@, c@].drop_last() =~= seq![a@, b@]);
    }
}

/// Numbers one name.
fn intern_one(t: &mut Vec<String>, a: &String)
    requires
        names_of(old(t)@).no_duplicates(),
        old(t)@.len() + 4 < u32::MAX,
    ensures
        names_of(final(t)@) == intern_all(names_of(old(t)@), seq![a@]),
{
    let ghost t0 = names_of(t@);
    intern_exec(t, a);
    proof {
        lemma_intern_one(t0, a@);
    }
}

/// Numbers the registers of an instruction, in order.
fn intern_inst_regs(t: &mut Vec<String>, i: &Instruction<Reg, Label, Label>)
    requires
        names_of(old(t)@).no_duplicates(),
        old(t)@.len() + 4 < u32::MAX,
    ensures
        names_of(final(t)@) == intern_all(names_of(old(t)@), inst_regs(*i)),
{
    match i {
        Instruction::Li(a, _) => intern_one(t, &a.0),
        Instruction::Lw(a, _) => intern_one(t, &a.0),
        Instruction::La(a, _) => intern_one(t, &a.0),
        Instruction::Mv(a, b) => intern_two(t, &a.0, &b.0),
        Instruction::Sw(a, _, b) => intern_two(t, &a.0, &b.0),
        Instruction::Add(a, b, c) => intern_three(t, &a.0, &b.0, &c.0),
        Instruction::Neg(a, b) => intern_two(t, &a.0, &b.0),
        Instruction::Sub(a, b, c) => intern_three(t, &a.0, &b.0, &c.0),
        Instruction::Mul(a, b, c) => intern_three(t, &a.0, &b.0, &c.0),
        Instruction::Div(a, b, c) => intern_three(t, &a.0, &b.0, &c.0),
        Instruction::J(_) => {},
        Instruction::Beq(a, b, _) => intern_two(t, &a.0, &b.0),
        Instruction::Bne(a, b, _) => intern_two(t, &a.0, &b.0),
        Instruction::Blt(a, b, _) => intern_two(t, &a.0, &b.0),
        Instruction::Ebreak => {},
        Instruction::Ecall => {},
    }
}

/// Numbers the labels of an item.
fn intern_item_labels(t: &mut Vec<String>, it: &TextItem)
    requires
        names_of(old(t)@).no_duplicates(),
        old(t)@.len() + 4 < u32::MAX,
    ensures
        names_of(final(t)@) == intern_all(names_of(old(t)@), item_labels(*it)),
{
    match it {
        TextItem::Label(l) => intern_one(t, &l.0),
        TextItem::Inst(i) => match i {
            Instruction::Lw(_, l) => intern_one(t, &l.0),
            Instruction::La(_, l) => intern_one(t, &l.0),
            Instruction::J(l) => intern_one(t, &l.0),
            Instruction::Beq(_, _, l) => intern_one(t, &l.0),
            Instruction::Bne(_, _, l) => intern_one(t, &l.0),
            Instruction::Blt(_, _, l) => intern_one(t, &l.0),
            _ => {},
        },
    }
}

/// The position after the last definition of label `x`, and zero where
/// there is none.
fn jump_exec(text: &Vec<TextItem>, x: &String) -> (r: u32)
    requires
        text@.len() < u32::MAX,
    ensures
        r as nat == match label_pos(text@, x@) {
            Some(p) => p,
            None => 0,
        },
{
    let mut count: u32 = 0;
    let mut found: Option<u32> = None;
    let mut i: usize = 0;
    proof {
        assert(text@.take(0) =~= Seq::<TextItem>::empty());
    }
    while i < text.len()
        invariant
            i <= text@.len(),
            text@.len() < u32::MAX,
            count as nat == count_insts(text@.take(i as int)),
            count <= i,
            match found {
                Some(p) => label_pos(text@.take(i as int), x@) == Some(p as nat),
                None => label_pos(text@.take(i as int), x@) is None,
            },
        decreases text@.len() - i,
    {
        proof {
            assert(text@.take(i + 1).drop_last() =~= text@.take(i as int));
            assert(text@.take(i + 1).last() == text@[i as int]);
        }
        match &text[i] {
            TextItem::Label(l) => {
                if l.0.eq(x) {
                    found = Some(count);
                }
            },
            TextItem::Inst(_) => {
                count = count + 1;
            },
        }
        i = i + 1;
    }
    proof {
        assert(text@.take(i as int) =~= text@);
    }
    match found {
        Some(p) => p,
        None => 0,
    }
}

/// Whether the data section defines label `x`.
fn is_data_label(data: &Vec<(Label, Word)>, x: &String) -> (r: bool)
    ensures
        r == data_labels(data@).contains(x@),
{
    let mut i: usize = 0;
    while i < data.len()
        invariant
            i <= data@.len(),
            forall|k: int| 0 <= k < i ==> data_labels(data@)[k] != x@,
        decreases data@.len() - i,
    {
        if data[i].0.0.eq(x) {
            proof {
                assert(data_labels(data@)[i as int] == x@);
            }
            return true;
        }
        i = i + 1;
    }
    proof {
        if data_labels(data@).contains(x@) {
            let k = choose|k: int| 0 <= k < data_labels(data@).len() && data_labels(data@)[k] == x@;
        }
    }
    false
}

/// The registers of an instruction are numbered in the file.
pub open spec fn regs_known(f: RiscVFile, i: Instruction<Reg, Label, Label>) -> bool {
    forall|k: int| 0 <= k < inst_regs(i).len() ==> asm_regs(f).contains(#[trigger] inst_regs(i)[k])
}

/// The tables of the file are as assembled, each name once.
pub open spec fn tables_ok(f: RiscVFile, regs: Seq<String>, labels: Seq<String>) -> bool {
    &&& names_of(regs) == asm_regs(f)
    &&& names_of(regs).no_duplicates()
    &&& regs.len() < u32::MAX
    &&& names_of(labels) == asm_labels(f)
    &&& names_of(labels).no_duplicates()
    &&& labels.len() < u32::MAX
}

/// A label of the data section stands among the first labels.
proof fn lemma_data_position(f: RiscVFile, x: Seq<char>)
    requires
        data_labels(f.data@).contains(x),
    ensures
        0 <= position(asm_labels(f), x) < f.data@.len(),
{
    let d = data_labels(f.data@);
    let p = intern_all(Seq::empty(), d);
    lemma_intern_all_append(Seq::empty(), d, text_labels(f.text@));
    lemma_intern_all_props(Seq::empty(), d);
    lemma_intern_all_props(p, text_labels(f.text@));
    let j = choose|j: int| 0 <= j < d.len() && d[j] == x;
    assert(p.contains(d[j]));
    let k = choose|k: int| 0 <= k < p.len() && p[k] == x;
    lemma_position(p, asm_labels(f), k);
}

/// The number of a register of the file.
fn reg_no(f: &RiscVFile, regs: &Vec<String>, r: &Reg) -> (k: u32)
    requires
        names_of(regs@) == asm_regs(*f),
        names_of(regs@).no_duplicates(),
        regs@.len() < u32::MAX,
        asm_regs(*f).contains(r.0@),
    ensures
        k == reg_number(*f, *r),
{
    match lookup(regs, &r.0) {
        Some(k) => k,
        None => 0,
    }
}

/// The address of a data label.
fn data_word(f: &RiscVFile, labels: &Vec<String>, l: &Label) -> (w: Word)
    requires
        names_of(labels@) == asm_labels(*f),
        names_of(labels@).no_duplicates(),
        labels@.len() < u32::MAX,
        f.data@.len() <= HEAP_WORDS,
    ensures
        w == Word(data_address(*f, l.0@) as i32),
{
    if is_data_label(&f.data, &l.0) {
        proof {
            lemma_data_position(*f, l.0@);
        }
        match lookup(labels, &l.0) {
            Some(k) => Word(k as i32),
            None => Word(0),
        }
    } else {
        Word(0)
    }
}

/// The target of a jump label.
fn jump_point(f: &RiscVFile, l: &Label) -> (p: ProgramPoint)
    requires
        f.text@.len() < u32::MAX,
    ensures
        p == ProgramPoint(jump_target(*f, l.0@) as u32),
{
    ProgramPoint(jump_exec(&f.text, &l.0))
}

/// The assembled form of an instruction of the file.
fn assemble_exec(f: &RiscVFile, regs: &Vec<String>, labels: &Vec<String>, i: &Instruction<Reg, Label, Label>) -> (r:
    Instruction<u32, Word, ProgramPoint>)
    requires
        tables_ok(*f, regs@, labels@),
        regs_known(*f, *i),
        f.data@.len() <= HEAP_WORDS,
        f.text@.len() < u32::MAX,
    ensures
        r == assemble_inst(*f, *i),
{
    proof {
        if inst_regs(*i).len() > 0 {
            assert(asm_regs(*f).contains(inst_regs(*i)[0]));
        }
        if inst_regs(*i).len() > 1 {
            assert(asm_regs(*f).contains(inst_regs(*i)[1]));
        }
        if inst_regs(*i).len() > 2 {
            assert(asm_regs(*f).contains(inst_regs(*i)[2]));
        }
    }
    match i {
        Instruction::Li(a, w) => Instruction::Li(reg_no(f, regs, a), *w),
        Instruction::Lw(a, l) => Instruction::Lw(reg_no(f, regs, a), data_word(f, labels, l)),
        Instruction::La(a, l) => Instruction::La(reg_no(f, regs, a), data_word(f, labels, l)),
        Instruction::Mv(a, b) => Instruction::Mv(reg_no(f, regs, a), reg_no(f, regs, b)),
        Instruction::Sw(a, o, b) => Instruction::Sw(reg_no(f, regs, a), *o, reg_no(f, regs, b)),
        Instruction::Add(a, b, c) => Instruction::Add(reg_no(f, regs, a), reg_no(f, regs, b), reg_no(f, regs, c)),
        Instruction::Neg(a, b) => Instruction::Neg(reg_no(f, regs, a), reg_no(f, regs, b)),
        Instruction::Sub(a, b, c) => Instruction::Sub(reg_no(f, regs, a), reg_no(f, regs, b), reg_no(f, regs, c)),
        Instruction::Mul(a, b, c) => Instruction::Mul(reg_no(f, regs, a), reg_no(f, regs, b), reg_no(f, regs, c)),
        Instruction::Div(a, b, c) => Instruction::Div(reg_no(f, regs, a), reg_no(f, regs, b), reg_no(f, regs, c)),
        Instruction::J(l) => Instruction::J(jump_point(f, l)),
        Instruction::Beq(a, b, l) => Instruction::Beq(reg_no(f, regs, a), reg_no(f, regs, b), jump_point(f, l)),
        Instruction::Bne(a, b, l) => Instruction::Bne(reg_no(f, regs, a), reg_no(f, regs, b), jump_point(f, l)),
        Instruction::Blt(a, b, l) => Instruction::Blt(reg_no(f, regs, a), reg_no(f, regs, b), jump_point(f, l)),
        Instruction::Ebreak => Instruction::Ebreak,
        Instruction::Ecall => Instruction::Ecall,
    }
}

/// The registers of the file, numbered.
fn reg_table(f: &RiscVFile) -> (r: Vec<String>)
    requires
        3 * f.text@.len() + 8 < u32::MAX,
    ensures
        names_of(r@) == asm_regs(*f),
        names_of(r@).no_duplicates(),
        r@.len() <= 1 + 3 * f.text@.len(),
{
    let mut regs: Vec<String> = Vec::new();
    regs.push(String::from_str("a7"));
    let ghost t0 = seq!["a7"@];
    proof {
        assert(names_of(regs@) =~= t0);
        assert(f.text@.take(0) =~= Seq::<TextItem>::empty());
        assert(intern_all(t0, text_regs(f.text@.take(0))) =~= t0);
    }
    let mut i: usize = 0;
    while i < f.text.len()
        invariant
            i <= f.text@.len(),
            3 * f.text@.len() + 8 < u32::MAX,
            t0 == seq!["a7"@],
            names_of(regs@) == intern_all(t0, text_regs(f.text@.take(i as int))),
            names_of(regs@).no_duplicates(),
            regs@.len() <= 1 + 3 * i,
        decreases f.text@.len() - i,
    {
        let ghost before = names_of(regs@);
        proof {
            assert(f.text@.take(i + 1).drop_last() =~= f.text@.take(i as int));
            assert(f.text@.take(i + 1).last() == f.text@[i as int]);
            assert(text_regs(f.text@.take(i + 1)) == text_regs(f.text@.take(i as int)) + item_regs(
                f.text@[i as int],
            ));
            lemma_intern_all_append(t0, text_regs(f.text@.take(i as int)), item_regs(f.text@[i as int]));
            lemma_intern_all_props(before, item_regs(f.text@[i as int]));
        }
        match &f.text[i] {
            TextItem::Label(_) => {
                proof {
                    assert(item_regs(f.text@[i as int]) =~= Seq::<Seq<char>>::empty());
                }
            },
            TextItem::Inst(inst) => {
                intern_inst_regs(&mut regs, inst);
            },
        }
        i = i + 1;
    }
    proof {
        assert(f.text@.take(i as int) =~= f.text@);
    }
    regs
}

/// The labels of the file, numbered.
fn label_table(f: &RiscVFile) -> (r: Vec<String>)
    requires
        3 * f.text@.len() + f.data@.len() + 8 < u32::MAX,
    ensures
        names_of(r@) == asm_labels(*f),
        names_of(r@).no_duplicates(),
        r@.len() <= f.data@.len() + f.text@.len(),
{
    let mut labels: Vec<String> = Vec::new();
    let ghost e = Seq::<Seq<char>>::empty();
    let ghost d = data_labels(f.data@);
    proof {
        assert(names_of(labels@) =~= e);
        assert(d.take(0) =~= Seq::<Seq<char>>::empty());
    }
    let mut i: usize = 0;
    while i < f.data.len()
        invariant
            i <= f.data@.len(),
            3 * f.text@.len() + f.data@.len() + 8 < u32::MAX,
            e == Seq::<Seq<char>>::empty(),
            d == data_labels(f.data@),
            names_of(labels@) == intern_all(e, d.take(i as int)),
            names_of(labels@).no_duplicates(),
            labels@.len() <= i,
        decreases f.data@.len() - i,
    {
        let ghost before = names_of(labels@);
        proof {
            assert(d.take(i + 1).drop_last() =~= d.take(i as int));
            assert(d.take(i + 1).last() == d[i as int]);
            lemma_intern_props(before, d[i as int]);
        }
        intern_exec(&mut labels, &f.data[i].0.0);
        i = i + 1;
    }
    proof {
        assert(d.take(i as int) =~= d);
        assert(d + text_labels(f.text@.take(0)) =~= d);
    }
    let mut j: usize = 0;
    while j < f.text.len()
        invariant
            j <= f.text@.len(),
            3 * f.text@.len() + f.data@.len() + 8 < u32::MAX,
            e == Seq::<Seq<char>>::empty(),
            d == data_labels(f.data@),
            names_of(labels@) == intern_all(e, d + text_labels(f.text@.take(j as int))),
            names_of(labels@).no_duplicates(),
            labels@.len() <= f.data@.len() + j,
        decreases f.text@.len() - j,
    {
        let ghost before = names_of(labels@);
        proof {
            let t = f.text@.take(j + 1);
            assert(t.drop_last() =~= f.text@.take(j as int));
            assert(t.last() == f.text@[j as int]);
            assert(text_labels(t) == text_labels(f.text@.take(j as int)) + item_labels(f.text@[j as int]));
            assert(d + text_labels(t) =~= (d + text_labels(f.text@.take(j as int))) + item_labels(
                f.text@[j as int],
            ));
            lemma_intern_all_append(e, d + text_labels(f.text@.take(j as int)), item_labels(f.text@[j as int]));
            lemma_intern_all_props(before, item_labels(f.text@[j as int]));
        }
        intern_item_labels(&mut labels, &f.text[j]);
        j = j + 1;
    }
    proof {
        assert(f.text@.take(j as int) =~= f.text@);
    }
    labels
}

impl Binary {
    /// Assembles a source file: the binary, and the initial memory with no
    /// register set and each word of the data section at the address of
    /// its label.
    pub fn from_file(f: &RiscVFile) -> (r: (Binary, Memory))
        requires
            f.data@.len() <= HEAP_WORDS,
            3 * f.text@.len() + f.data@.len() + 8 < u32::MAX,
        ensures
            r.0.instr@ == asm_instrs(*f, f.text@),
            r.0.a7 as int == position(asm_regs(*f), "a7"@),
            reg_words(r.1.regs) == no_regs(),
            r.1.heap@.map_values(|w: Word| w.0) == asm_heap(*f, f.data@),
    {
        let regs = reg_table(f);
        let labels = label_table(f);
        proof {
            lemma_intern_all_props(seq!["a7"@], text_regs(f.text@));
            assert(seq!["a7"@][0] == "a7"@);
            lemma_position(seq!["a7"@], asm_regs(*f), 0);
        }
        // the heap
        let mut heap: Vec<Word> = Vec::new();
        while heap.len() < HEAP_WORDS
            invariant
                heap@.len() <= HEAP_WORDS,
                forall|k: int| 0 <= k < heap@.len() ==> (#[trigger] heap@[k]).0 == 0,
            decreases HEAP_WORDS - heap@.len(),
        {
            heap.push(Word(0));
        }
        proof {
            assert(heap@.map_values(|w: Word| w.0) =~= asm_heap(*f, f.data@.take(0)));
        }
        let mut i: usize = 0;
        while i < f.data.len()
            invariant
                i <= f.data@.len(),
                f.data@.len() <= HEAP_WORDS,
                tables_ok(*f, regs@, labels@),
                heap@.len() == HEAP_WORDS,
                heap@.map_values(|w: Word| w.0) == asm_heap(*f, f.data@.take(i as int)),
            decreases f.data@.len() - i,
        {
            proof {
                assert(data_labels(f.data@)[i as int] == f.data@[i as int].0.0@);
                lemma_data_position(*f, f.data@[i as int].0.0@);
                lemma_intern_all_props(Seq::empty(), data_labels(f.data@) + text_labels(f.text@));
                assert((data_labels(f.data@) + text_labels(f.text@))[i as int] == f.data@[i as int].0.0@);
                assert(f.data@.take(i + 1).drop_last() =~= f.data@.take(i as int));
                assert(f.data@.take(i + 1).last() == f.data@[i as int]);
            }
            match lookup(&labels, &f.data[i].0.0) {
                Some(k) => {
                    heap.set(k as usize, f.data[i].1);
                    proof {
                        assert(heap@.map_values(|w: Word| w.0) =~= asm_heap(*f, f.data@.take(i + 1)));
                    }
                },
                None => {},
            }
            i = i + 1;
        }
        proof {
            assert(f.data@.take(i as int) =~= f.data@);
        }
        // the instructions
        let mut instr: Vec<Instruction<u32, Word, ProgramPoint>> = Vec::new();
        let mut j: usize = 0;
        proof {
            assert(instr@ =~= asm_instrs(*f, f.text@.take(0)));
        }
        while j < f.text.len()
            invariant
                j <= f.text@.len(),
                f.data@.len() <= HEAP_WORDS,
                3 * f.text@.len() + f.data@.len() + 8 < u32::MAX,
                tables_ok(*f, regs@, labels@),
                instr@ == asm_instrs(*f, f.text@.take(j as int)),
            decreases f.text@.len() - j,
        {
            proof {
                assert(f.text@.take(j + 1).drop_last() =~= f.text@.take(j as int));
                assert(f.text@.take(j + 1).last() == f.text@[j as int]);
            }
            match &f.text[j] {
                TextItem::Label(_) => {
                    proof {
                        assert(asm_instrs(*f, f.text@.take(j + 1)) =~= instr@);
                    }
                },
                TextItem::Inst(inst) => {
                    proof {
                        lemma_intern_all_props(seq!["a7"@], text_regs(f.text@));
                        assert forall|k: int| 0 <= k < inst_regs(*inst).len() implies asm_regs(*f).contains(
                            #[trigger] inst_regs(*inst)[k],
                        ) by {
                            assert(item_regs(f.text@[j as int]) == inst_regs(*inst));
                            lemma_text_regs_has(f.text@, j as int, k);
                            let t = choose|t: int| 0 <= t < text_regs(f.text@).len() && text_regs(f.text@)[t]
                                == inst_regs(*inst)[k];
                            assert(asm_regs(*f).contains(text_regs(f.text@)[t]));
                        }
                    }
                    let a = assemble_exec(f, &regs, &labels, inst);
                    instr.push(a);
                    proof {
                        assert(instr@ =~= asm_instrs(*f, f.text@.take(j + 1)));
                    }
                },
            }
            j = j + 1;
        }
        proof {
            assert(f.text@.take(j as int) =~= f.text@);
        }
        (Binary { instr, a7: 0 }, Memory::new(heap))
    }
}

impl RiscVFile {
    /// An empty file.
    pub fn new() -> (r: RiscVFile)
        ensures
            r.data@.len() == 0,
            r.text@.len() == 0,
    {
        RiscVFile { data: Vec::new(), text: Vec::new() }
    }

    /// Adds a word to the data section under `label`.
    pub fn push_data(&mut self, label: Label, word: Word)
        ensures
            final(self).data@ == old(self).data@.push((label, word)),
            final(self).text@ == old(self).text@,
    {
        self.data.push((label, word));
    }

    /// Defines a label at the end of the text section.
    pub fn push_label(&mut self, label: Label)
        ensures
            final(self).text@ == old(self).text@.push(TextItem::Label(label)),
            final(self).data@ == old(self).data@,
    {
        self.text.push(TextItem::Label(label));
    }

    /// Adds an instruction at the end of the text section.
    pub fn push_inst(&mut self, inst: Instruction<Reg, Label, Label>)
        ensures
            final(self).text@ == old(self).text@.push(TextItem::Inst(inst)),
            final(self).data@ == old(self).data@,
    {
        self.text.push(TextItem::Inst(inst));
    }

    /// Ends the text section with the system call that stops the machine:
    /// `li a7, 10` and `ecall`.
    pub fn push_halt(&mut self)
        ensures
            final(self).data@ == old(self).data@,
            final(self).text@.len() == old(self).text@.len() + 2,
            final(self).text@.take(old(self).text@.len() as int) == old(self).text@,
            final(self).text@[old(self).text@.len() as int] matches TextItem::Inst(
                Instruction::Li(r, w),
            ) && r.0@ == "a7"@ && w == Word(10),
            final(self).text@[old(self).text@.len() + 1int] matches TextItem::Inst(Instruction::Ecall),
    {
        let ghost before = self.text@;
        self.push_inst(Instruction::Li(Reg::a7(), CallNumber::exit()));
        self.push_inst(Instruction::Ecall);
        proof {
            assert(self.text@.take(before.len() as int) =~= before);
        }
    }
}

/// `op a, b`, after a tab.
pub open spec fn text2(op: Seq<char>, a: Seq<char>, b: Seq<char>) -> Seq<char> {
    "\t"@ + op + " "@ + a + ", "@ + b
}

/// `op a, b, c`, after a tab.
pub open spec fn text3(op: Seq<char>, a: Seq<char>, b: Seq<char>, c: Seq<char>) -> Seq<char> {
    text2(op, a, b) + ", "@ + c
}

/// How an instruction is written in a source file.
pub open spec fn inst_text(i: Instruction<Reg, Label, Label>) -> Seq<char> {
    match i {
        Instruction::Li(r, v) => text2("li"@, r.0@, int_text(v.0 as int)),
        Instruction::Lw(r, l) => text2("lw"@, r.0@, l.0@),
        Instruction::La(r, l) => text2("la"@, r.0@, l.0@),
        Instruction::Mv(a, b) => text2("mv"@, a.0@, b.0@),
        Instruction::Sw(a, o, b) => text2("sw"@, a.0@, int_text(o.0 as int) + "("@ + b.0@ + ")"@),
        Instruction::Add(a, b, c) => text3("add"@, a.0@, b.0@, c.0@),
        Instruction::Neg(a, b) => text2("neg"@, a.0@, b.0@),
        Instruction::Sub(a, b, c) => text3("sub"@, a.0@, b.0@, c.0@),
        Instruction::Mul(a, b, c) => text3("mul"@, a.0@, b.0@, c.0@),
        Instruction::Div(a, b, c) => text3("div"@, a.0@, b.0@, c.0@),
        Instruction::J(l) => "\tj "@ + l.0@,
        Instruction::Beq(a, b, l) => text3("beq"@, a.0@, b.0@, l.0@),
        Instruction::Bne(a, b, l) => text3("bne"@, a.0@, b.0@, l.0@),
        Instruction::Blt(a, b, l) => text3("blt"@, a.0@, b.0@, l.0@),
        Instruction::Ebreak => "\tebreak"@,
        Instruction::Ecall => "\tecall"@,
    }
}

fn text2_exec(op: &str, a: &str, b: &str) -> (r: String)
    ensures
        r@ == text2(op@, a@, b@),
{
    let mut s = String::from_str("\t");
    s.append(op);
    s.append(" ");
    s.append(a);
    s.append(", ");
    s.append(b);
    s
}

fn text3_exec(op: &str, a: &str, b: &str, c: &str) -> (r: String)
    ensures
        r@ == text3(op@, a@, b@, c@),
{
    let mut s = text2_exec(op, a, b);
    s.append(", ");
    s.append(c);
    s
}

impl Instruction<Reg, Label, Label> {
    /// How the instruction is written in a source file.
    pub fn to_text(&self) -> (r: String)
        ensures
            r@ == inst_text(*self),
    {
        match self {
            Instruction::Li(r, v) => {
                let t = int_to_string(v.0 as i64);
                text2_exec("li", r.0.as_str(), t.as_str())
            },
            Instruction::Lw(r, l) => text2_exec("lw", r.0.as_str(), l.0.as_str()),
            Instruction::La(r, l) => text2_exec("la", r.0.as_str(), l.0.as_str()),
            Instruction::Mv(a, b) => text2_exec("mv", a.0.as_str(), b.0.as_str()),
            Instruction::Sw(a, o, b) => {
                let mut t = int_to_string(o.0 as i64);
                t.append("(");
                t.append(b.0.as_str());
                t.append(")");
                text2_exec("sw", a.0.as_str(), t.as_str())
            },
            Instruction::Add(a, b, c) => text3_exec("add", a.0.as_str(), b.0.as_str(), c.0.as_str()),
            Instruction::Neg(a, b) => text2_exec("neg", a.0.as_str(), b.0.as_str()),
            Instruction::Sub(a, b, c) => text3_exec("sub", a.0.as_str(), b.0.as_str(), c.0.as_str()),
            Instruction::Mul(a, b, c) => text3_exec("mul", a.0.as_str(), b.0.as_str(), c.0.as_str()),
            Instruction::Div(a, b, c) => text3_exec("div", a.0.as_str(), b.0.as_str(), c.0.as_str()),
            Instruction::J(l) => {
                let mut s = String::from_str("\tj ");
                s.append(l.0.as_str());
                s
            },
            Instruction::Beq(a, b, l) => text3_exec("beq", a.0.as_str(), b.0.as_str(), l.0.as_str()),
            Instruction::Bne(a, b, l) => text3_exec("bne", a.0.as_str(), b.0.as_str(), l.0.as_str()),
            Instruction::Blt(a, b, l) => text3_exec("blt", a.0.as_str(), b.0.as_str(), l.0.as_str()),
            Instruction::Ebreak => String::from_str("\tebreak"),
            Instruction::Ecall => String::from_str("\tecall"),
        }
    }
}

/// The lines of the data section.
pub open spec fn data_text(data: Seq<(Label, Word)>) -> Seq<char>
    decreases data.len(),
{
    if data.len() == 0 {
        Seq::empty()
    } else {
        data_text(data.drop_last()) + data.last().0.0@ + ":\t\t.word "@ + int_text(data.last().1.0 as int) + "\n"@
    }
}

/// The lines of the text section.
pub open spec fn items_text(items: Seq<TextItem>) -> Seq<char>
    decreases items.len(),
{
    if items.len() == 0 {
        Seq::empty()
    } else {
        items_text(items.drop_last()) + match items.last() {
            TextItem::Label(l) => l.0@ + ":\n"@,
            TextItem::Inst(i) => inst_text(i) + "\n"@,
        }
    }
}

/// How a file is written: the data section, then the text section.
pub open spec fn file_text(f: RiscVFile) -> Seq<char> {
    ".data\n"@ + data_text(f.data@) + ".text\n"@ + items_text(f.text@)
}

impl RiscVFile {
    /// How the file is written.
    pub fn to_text(&self) -> (r: String)
        ensures
            r@ == file_text(*self),
    {
        let mut s = String::from_str(".data\n");
        let ghost head = s@;
        let mut i: usize = 0;
        proof {
            assert(self.data@.take(0) =~= Seq::<(Label, Word)>::empty());
            assert(s@ =~= head + data_text(self.data@.take(0)));
        }
        while i < self.data.len()
            invariant
                i <= self.data@.len(),
                head == ".data\n"@,
                s@ == head + data_text(self.data@.take(i as int)),
            decreases self.data@.len() - i,
        {
            proof {
                assert(self.data@.take(i + 1).drop_last() =~= self.data@.take(i as int));
                assert(self.data@.take(i + 1).last() == self.data@[i as int]);
            }
            s.append(self.data[i].0.0.as_str());
            s.append(":\t\t.word ");
            let w = int_to_string(self.data[i].1.0 as i64);
            s.append(w.as_str());
            s.append("\n");
            proof {
                assert(s@ =~= head + data_text(self.data@.take(i + 1)));
            }
            i = i + 1;
        }
        proof {
            assert(self.data@.take(i as int) =~= self.data@);
        }
        s.append(".text\n");
        let ghost mid = s@;
        let mut j: usize = 0;
        proof {
            assert(self.text@.take(0) =~= Seq::<TextItem>::empty());
            assert(s@ =~= mid + items_text(self.text@.take(0)));
        }
        while j < self.text.len()
            invariant
                j <= self.text@.len(),
                mid == ".data\n"@ + data_text(self.data@) + ".text\n"@,
                s@ == mid + items_text(self.text@.take(j as int)),
            decreases self.text@.len() - j,
        {
            proof {
                assert(self.text@.take(j + 1).drop_last() =~= self.text@.take(j as int));
                assert(self.text@.take(j + 1).last() == self.text@[j as int]);
            }
            match &self.text[j] {
                TextItem::Label(l) => {
                    s.append(l.0.as_str());
                    s.append(":\n");
                },
                TextItem::Inst(inst) => {
                    let t = inst.to_text();
                    s.append(t.as_str());
                    s.append("\n");
                },
            }
            proof {
                assert(s@ =~= mid + items_text(self.text@.take(j + 1)));
            }
            j = j + 1;
        }
        proof {
            assert(self.text@.take(j as int) =~= self.text@);
        }
        s
    }
}

} // verus!
