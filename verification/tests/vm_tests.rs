use lozenge::codegen::CodeGen;
use lozenge::ir::{IR, Line};
use lozenge::vm::{FaultKind, LoadError, VM};

const FUEL: u64 = 100_000;

fn plain(inst: IR) -> Line {
    Line::new(None, inst)
}

fn labeled(name: &str, inst: IR) -> Line {
    Line::new(Some(name.to_string()), inst)
}

fn generate(mut lines: Vec<Line>) -> Vec<u32> {
    let mut cg = CodeGen::new();
    cg.gen(&mut lines).unwrap();
    cg.output
}

fn loaded(words: &Vec<u32>) -> VM {
    let mut vm = VM::new();
    vm.load(words).unwrap();
    vm
}

#[test]
fn scenario_add_emits_eight() {
    let words = generate(vec![
        plain(IR::LOADC(5)),
        plain(IR::LOADC(3)),
        plain(IR::ADD),
        plain(IR::WRITE),
        plain(IR::HALT),
    ]);
    let mut vm = loaded(&words);
    let mut out: Vec<i32> = Vec::new();
    assert_eq!(vm.run(&mut out, FUEL), Ok(true));
    assert_eq!(out, vec![8]);
}

#[test]
fn scenario_store_then_load_emits_seven_and_keeps_the_cell() {
    let words = generate(vec![
        plain(IR::LOADC(7)),
        plain(IR::STORE("x".to_string())),
        plain(IR::LOAD("x".to_string())),
        plain(IR::WRITE),
        plain(IR::HALT),
        labeled("x", IR::DEC(0)),
    ]);
    let mut vm = loaded(&words);
    let mut out: Vec<i32> = Vec::new();
    assert_eq!(vm.run(&mut out, FUEL), Ok(true));
    assert_eq!(out, vec![7]);
    // The reservation cell sits at address 5 in the final order.
    assert_eq!(vm.memory_at(5), Some(7));
}

fn odd_scenario_program(value: i32) -> Vec<u32> {
    generate(vec![
        plain(IR::CALL("odd_fn".to_string())),
        plain(IR::JMZ("even".to_string())),
        plain(IR::LOADC(1)),
        plain(IR::WRITE),
        plain(IR::JMP("end".to_string())),
        labeled("even", IR::LOADC(0)),
        plain(IR::WRITE),
        labeled("end", IR::HALT),
        labeled("odd_fn", IR::StartFunc),
        plain(IR::LOAD("x".to_string())),
        plain(IR::ODD),
        plain(IR::RET),
        labeled("x", IR::DEC(value)),
    ])
}

#[test]
fn scenario_call_returns_past_the_call_and_jmz_takes_zero() {
    // Final order: main 0..=7, the cell at 8, the function at 9..=12.
    let words = odd_scenario_program(4);
    let mut vm = loaded(&words);
    let mut out: Vec<i32> = Vec::new();
    assert_eq!(vm.step(), Ok(None)); // CALL
    assert_eq!(vm.pc(), 9);
    assert_eq!(vm.step(), Ok(None)); // function-entry marker
    assert_eq!(vm.step(), Ok(None)); // LOAD x
    assert_eq!(vm.step(), Ok(None)); // ODD: 4 is even, pushes 0
    assert_eq!(vm.step(), Ok(None)); // RET
    assert_eq!(vm.pc(), 1, "control must return to the instruction after CALL");
    assert_eq!(vm.step(), Ok(None)); // JMZ on 0: taken
    assert_eq!(vm.pc(), 5);
    assert_eq!(vm.run(&mut out, FUEL), Ok(true));
    assert_eq!(out, vec![0]);
}

#[test]
fn scenario_jmz_falls_through_on_nonzero() {
    let words = odd_scenario_program(5);
    let mut vm = loaded(&words);
    let mut out: Vec<i32> = Vec::new();
    for _ in 0..5 {
        assert_eq!(vm.step(), Ok(None)); // CALL, marker, LOAD, ODD, RET
    }
    assert_eq!(vm.pc(), 1);
    assert_eq!(vm.step(), Ok(None)); // JMZ on 1: not taken
    assert_eq!(vm.pc(), 2);
    assert_eq!(vm.run(&mut out, FUEL), Ok(true));
    assert_eq!(out, vec![1]);
}

#[test]
fn sub_takes_the_earlier_push_as_left_operand() {
    let words = generate(vec![
        plain(IR::LOADC(10)),
        plain(IR::LOADC(4)),
        plain(IR::SUB),
        plain(IR::WRITE),
        plain(IR::HALT),
    ]);
    let mut vm = loaded(&words);
    let mut out: Vec<i32> = Vec::new();
    assert_eq!(vm.run(&mut out, FUEL), Ok(true));
    assert_eq!(out, vec![6]);
}

#[test]
fn div_takes_the_earlier_push_as_dividend() {
    let words = generate(vec![
        plain(IR::LOADC(20)),
        plain(IR::LOADC(5)),
        plain(IR::DIV),
        plain(IR::WRITE),
        plain(IR::HALT),
    ]);
    let mut vm = loaded(&words);
    let mut out: Vec<i32> = Vec::new();
    assert_eq!(vm.run(&mut out, FUEL), Ok(true));
    assert_eq!(out, vec![4]);
}

#[test]
fn odd_holds_for_negative_values() {
    let words = generate(vec![
        plain(IR::LOADC(0)),
        plain(IR::LOADC(7)),
        plain(IR::SUB), // -7
        plain(IR::ODD),
        plain(IR::WRITE),
        plain(IR::HALT),
    ]);
    let mut vm = loaded(&words);
    let mut out: Vec<i32> = Vec::new();
    assert_eq!(vm.run(&mut out, FUEL), Ok(true));
    assert_eq!(out, vec![1]);
}

#[test]
fn comparisons_push_one_or_zero() {
    let words = generate(vec![
        plain(IR::LOADC(2)),
        plain(IR::LOADC(3)),
        plain(IR::LT), // 2 < 3
        plain(IR::WRITE),
        plain(IR::LOADC(2)),
        plain(IR::LOADC(3)),
        plain(IR::GTE), // 2 >= 3
        plain(IR::WRITE),
        plain(IR::LOADC(4)),
        plain(IR::LOADC(4)),
        plain(IR::EQ),
        plain(IR::WRITE),
        plain(IR::LOADC(3)),
        plain(IR::LOADC(3)),
        plain(IR::LTE), // 3 <= 3
        plain(IR::WRITE),
        plain(IR::LOADC(9)),
        plain(IR::LOADC(2)),
        plain(IR::GT), // 9 > 2
        plain(IR::WRITE),
        plain(IR::LOADC(1)),
        plain(IR::LOADC(1)),
        plain(IR::NEQ),
        plain(IR::WRITE),
        plain(IR::HALT),
    ]);
    let mut vm = loaded(&words);
    let mut out: Vec<i32> = Vec::new();
    assert_eq!(vm.run(&mut out, FUEL), Ok(true));
    assert_eq!(out, vec![1, 0, 1, 1, 1, 0]);
}

#[test]
fn boundary_immediate_survives_the_round_trip() {
    let words = generate(vec![plain(IR::LOADC(0x00FF_FFFF)), plain(IR::WRITE), plain(IR::HALT)]);
    let mut vm = loaded(&words);
    let mut out: Vec<i32> = Vec::new();
    assert_eq!(vm.run(&mut out, FUEL), Ok(true));
    assert_eq!(out, vec![0x00FF_FFFF]);
}

#[test]
fn division_by_zero_faults_with_the_faulting_state() {
    let words = generate(vec![
        plain(IR::LOADC(1)),
        plain(IR::LOADC(0)),
        plain(IR::DIV),
        plain(IR::HALT),
    ]);
    let mut vm = loaded(&words);
    let mut out: Vec<i32> = Vec::new();
    let fault = vm.run(&mut out, FUEL).unwrap_err();
    assert_eq!(fault.kind, FaultKind::DivisionByZero);
    assert_eq!(fault.pc, 2);
    assert_eq!(fault.opcode, 0xA0);
    assert_eq!(fault.stack_depth, 2);
    assert_eq!(fault.return_depth, 0);
}

#[test]
fn empty_stack_pop_faults() {
    let words = generate(vec![plain(IR::ADD), plain(IR::HALT)]);
    let mut vm = loaded(&words);
    let mut out: Vec<i32> = Vec::new();
    let fault = vm.run(&mut out, FUEL).unwrap_err();
    assert_eq!(fault.kind, FaultKind::StackUnderflow);
    assert_eq!(fault.pc, 0);
    assert_eq!(fault.stack_depth, 0);
}

#[test]
fn return_on_empty_return_stack_faults() {
    let words = generate(vec![plain(IR::RET)]);
    let mut vm = loaded(&words);
    let mut out: Vec<i32> = Vec::new();
    let fault = vm.run(&mut out, FUEL).unwrap_err();
    assert_eq!(fault.kind, FaultKind::ReturnStackUnderflow);
}

#[test]
fn unknown_opcode_faults_instead_of_skipping() {
    let mut vm = loaded(&vec![0x0500_0000]);
    let mut out: Vec<i32> = Vec::new();
    let fault = vm.run(&mut out, FUEL).unwrap_err();
    assert_eq!(fault.kind, FaultKind::UnknownOpcode);
    assert_eq!(fault.opcode, 0x05);
    assert_eq!(fault.pc, 0);
}

#[test]
fn load_outside_memory_faults() {
    let mut vm = loaded(&vec![0x3000_0800]); // LOAD 2048
    let mut out: Vec<i32> = Vec::new();
    let fault = vm.run(&mut out, FUEL).unwrap_err();
    assert_eq!(fault.kind, FaultKind::MemoryOutOfBounds);
}

#[test]
fn running_off_the_end_of_memory_faults() {
    // Build the NOOP word -201326592 (0xF4000000 as i32) on the
    // stack, store it into the last cell, then jump there: the cycle
    // after it pushes the counter past the end of memory.
    let words: Vec<u32> = vec![
        0x4000_0000, // LOADC 0
        0x40C0_0000, // LOADC 0x00C00000
        0x4000_0010, // LOADC 16
        0xB000_0000, // MUL: 0x0C000000
        0x9000_0000, // SUB: -0x0C000000, the NOOP word's value
        0x5000_07FF, // STORE 2047
        0x1000_07FF, // JMP 2047
    ];
    let mut vm = loaded(&words);
    let mut out: Vec<i32> = Vec::new();
    let fault = vm.run(&mut out, FUEL).unwrap_err();
    assert_eq!(fault.kind, FaultKind::FetchOutOfBounds);
    assert_eq!(fault.pc, 2048);
}

#[test]
fn multiplication_overflow_faults() {
    let words = generate(vec![
        plain(IR::LOADC(0x00FF_FFFF)),
        plain(IR::LOADC(0x00FF_FFFF)),
        plain(IR::MUL),
        plain(IR::HALT),
    ]);
    let mut vm = loaded(&words);
    let mut out: Vec<i32> = Vec::new();
    let fault = vm.run(&mut out, FUEL).unwrap_err();
    assert_eq!(fault.kind, FaultKind::ArithmeticOverflow);
}

#[test]
fn output_before_a_fault_is_kept() {
    let words = generate(vec![
        plain(IR::LOADC(1)),
        plain(IR::WRITE),
        plain(IR::ADD),
    ]);
    let mut vm = loaded(&words);
    let mut out: Vec<i32> = Vec::new();
    let fault = vm.run(&mut out, FUEL).unwrap_err();
    assert_eq!(fault.kind, FaultKind::StackUnderflow);
    assert_eq!(out, vec![1]);
}

#[test]
fn a_looping_program_exhausts_the_cycle_budget() {
    let words = generate(vec![labeled("top", IR::JMP("top".to_string()))]);
    let mut vm = loaded(&words);
    let mut out: Vec<i32> = Vec::new();
    assert_eq!(vm.run(&mut out, 100), Ok(false));
    assert!(!vm.is_halted());
}

#[test]
fn oversized_program_is_rejected_at_load() {
    let words: Vec<u32> = vec![0; 2049];
    let mut vm = VM::new();
    assert_eq!(vm.load(&words), Err(LoadError::ProgramTooLarge));
}

#[test]
fn a_fresh_machine_is_zeroed_and_running() {
    let vm = VM::new();
    assert_eq!(vm.pc(), 0);
    assert!(!vm.is_halted());
    assert_eq!(vm.memory_at(0), Some(0));
    assert_eq!(vm.memory_at(2047), Some(0));
    assert_eq!(vm.memory_at(2048), None);
}

#[test]
fn stepping_a_halted_machine_changes_nothing() {
    let words = generate(vec![plain(IR::HALT)]);
    let mut vm = loaded(&words);
    assert_eq!(vm.step(), Ok(None));
    assert!(vm.is_halted());
    let pc = vm.pc();
    assert_eq!(vm.step(), Ok(None));
    assert_eq!(vm.pc(), pc);
    assert!(vm.is_halted());
}
