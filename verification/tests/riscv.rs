use checkr_core::assemble::{RiscVFile, TextItem};
use checkr_core::riscv::{Binary, Instruction, Label, ProgramPoint, Reg, StepResult, Word, VM};

fn label(s: &str) -> Label {
    Label(s.to_string())
}

#[test]
fn assembling_numbers_registers_and_labels_in_order() {
    let mut f = RiscVFile::new();
    f.push_data(label("x"), Word(5));
    f.push_data(label("y"), Word(7));
    f.push_inst(Instruction::La(Reg::t0(), label("x")));
    f.push_inst(Instruction::Lw(Reg::t1(), label("y")));
    f.push_label(label("end"));
    f.push_inst(Instruction::Add(Reg::t2(), Reg::t1(), Reg::t1()));
    f.push_inst(Instruction::J(label("end")));
    f.push_inst(Instruction::Beq(Reg::t0(), Reg::t1(), label("missing")));
    let (bin, mem) = Binary::from_file(&f);
    assert_eq!(bin.a7, 0);
    assert_eq!(bin.instr.len(), 5);
    assert!(matches!(bin.instr[0], Instruction::La(1, Word(0))));
    assert!(matches!(bin.instr[1], Instruction::Lw(2, Word(1))));
    assert!(matches!(bin.instr[2], Instruction::Add(3, 2, 2)));
    assert!(matches!(bin.instr[3], Instruction::J(ProgramPoint(2))));
    assert!(matches!(bin.instr[4], Instruction::Beq(1, 2, ProgramPoint(0))));
    assert_eq!(mem.heap.len(), 65536);
    assert_eq!(mem.heap[0], Word(5));
    assert_eq!(mem.heap[1], Word(7));
    assert_eq!(mem.heap[2], Word(0));
    assert_eq!(mem.reg(1), Word(0));
}

#[test]
fn the_last_definition_of_a_label_wins() {
    let mut f = RiscVFile::new();
    f.push_label(label("l"));
    f.push_inst(Instruction::Ebreak);
    f.push_label(label("l"));
    f.push_inst(Instruction::J(label("l")));
    let (bin, _) = Binary::from_file(&f);
    assert!(matches!(bin.instr[1], Instruction::J(ProgramPoint(1))));
    assert!(matches!(f.text[0], TextItem::Label(_)));
}

#[test]
fn an_assembled_program_runs() {
    let mut f = RiscVFile::new();
    f.push_data(label("x"), Word(5));
    f.push_inst(Instruction::Lw(Reg::t0(), label("x")));
    f.push_inst(Instruction::Add(Reg::t1(), Reg::t0(), Reg::t0()));
    f.push_halt();
    let (bin, mem) = Binary::from_file(&f);
    let mut vm = VM::new(mem);
    let res = vm.run(&bin, 10);
    assert_eq!(res, StepResult::Exit);
    // t0 is register 1, t1 register 2
    assert_eq!(vm.memory.reg(1), Word(5));
    assert_eq!(vm.memory.reg(2), Word(10));
    assert_eq!(vm.memory.reg(0), Word(10));
}

#[test]
fn files_and_instructions_are_written_as_source() {
    let mut f = RiscVFile::new();
    f.push_data(label("x"), Word(5));
    f.push_label(label("l"));
    f.push_inst(Instruction::Li(Reg::a0(), Word(-3)));
    f.push_inst(Instruction::Sw(Reg::t0(), Word(4), Reg::t1()));
    f.push_inst(Instruction::Add(Reg::t2(), Reg::t0(), Reg::t1()));
    f.push_inst(Instruction::J(label("l")));
    f.push_inst(Instruction::Ecall);
    assert_eq!(
        f.to_text(),
        ".data\nx:\t\t.word 5\n.text\nl:\n\tli a0, -3\n\tsw t0, 4(t1)\n\tadd t2, t0, t1\n\tj l\n\tecall\n"
    );
    assert_eq!(Instruction::Blt(Reg::a1(), Reg::a2(), label("end")).to_text(), "\tblt a1, a2, end");
}
