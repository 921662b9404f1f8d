use std::collections::HashMap;

use vmal::assembler::{Assembly, Instruction};
use vmal::debug::{parse_command, Command, Debugger, Poll, Reply};
use vmal::util::op_to_string;
use vmal::vm::{get_int, INT_MAX, VM};

fn run(src: &str) -> VM {
    let a = Assembly::assemble(src).unwrap();
    let mut vm = VM::new(a.reg_inits, a.mem_inits);
    vm.run_code(&a.instructions);
    vm
}

#[test]
fn new_forces_fixed_registers() {
    let vm = VM::new(vec![(0, 9), (5, 9), (6, 9), (7, 9), (8, -1), (9, 3)], vec![(4, -1)]);
    assert_eq!(vm.registers[0], 0);
    assert_eq!(vm.registers[5], 0);
    assert_eq!(vm.registers[6], 1);
    assert_eq!(vm.registers[7], INT_MAX);
    assert_eq!(vm.registers[8], 0xffffffff);
    assert_eq!(vm.registers[9], 3);
    assert_eq!(vm.memory.get(&4), Some(&0xffffffff));
    assert_eq!((vm.MAR, vm.MBR, vm.N, vm.Z), (0, 0, false, false));
}

#[test]
fn add_wraps_within_width() {
    let vm = run("ADD 7, 6;");
    assert_eq!(vm.registers[7], 0);
    let vm = run("1: 0xfffffffe;\nADD 1, 1;");
    assert_eq!(vm.registers[1], 0xfffffffc);
}

#[test]
fn and_not_and_shifts_wrap() {
    let vm = run("1: 0x80000001;\nLS 2, 1;\nRS 3, 1;\nNOT 4, 1;\nAND 1, 7;");
    assert_eq!(vm.registers[2], 2);
    assert_eq!(vm.registers[3], 0x40000000);
    assert_eq!(vm.registers[4], 0x7ffffffe);
    assert_eq!(vm.registers[1], 0x80000001);
}

#[test]
fn sf_flags_follow_the_literal_rule() {
    let vm = run("SF 5;");
    assert!(vm.Z);
    assert!(vm.N);
    let vm = run("SF 7;");
    assert!(!vm.Z);
    assert!(!vm.N);
    let vm = run("SF 6;");
    assert!(!vm.Z);
    assert!(vm.N);
}

#[test]
fn memory_moves() {
    let vm = run("1: 40;\n2: 7;\nSW 1, 2;\nSA 6;\nSB 2;\nWR;\nMV 3, 1;\nSA 3;\nRD;\nRB 4;");
    assert_eq!(vm.memory.get(&40), Some(&7));
    assert_eq!(vm.memory.get(&1), Some(&7));
    assert_eq!(vm.MBR, 7);
    assert_eq!(vm.registers[4], 40);
    let vm = run("1: 99;\nSA 1;\nRD;");
    assert_eq!(vm.MBR, 0);
}

#[test]
fn loop_counts_down() {
    let src = "1: 3;\n2: 0;\nLBL top;\nADD 2, 6;\nADD 1, 7;\nSF 1;\nBIZ done;\nGO top;\nLBL done;";
    let vm = run(src);
    assert_eq!(vm.registers[1], 0);
    assert_eq!(vm.registers[2], 3);
    assert_eq!(vm.registers[0], 5);
}

#[test]
fn step_reports_print() {
    let a = Assembly::assemble("PRINT;\nADD 1, 6;").unwrap();
    let mut vm = VM::new(a.reg_inits, a.mem_inits);
    assert!(vm.step(&a.instructions));
    assert!(!vm.step(&a.instructions));
    assert!(vm.is_halted(&a.instructions));
    assert_eq!(vm.registers[1], 1);
}

#[test]
fn signed_display_values() {
    assert_eq!(get_int(5), 5);
    assert_eq!(get_int(0xffffffff), -1);
    assert_eq!(get_int(0x80000000), -2147483648);
    assert_eq!(get_int(0x7fffffff), 2147483647);
}

#[test]
fn instruction_text() {
    assert_eq!(op_to_string(&Instruction::ADD(0xe, 0xa)), "ADD E, A");
    assert_eq!(op_to_string(&Instruction::GO(-1)), "GO 0");
    assert_eq!(op_to_string(&Instruction::BIZ(26)), "BIZ 1B");
    assert_eq!(op_to_string(&Instruction::SF(12)), "SF C");
    assert_eq!(op_to_string(&Instruction::PRINT), "PRINT");
}

#[test]
fn commands_parse() {
    assert_eq!(parse_command(""), Command::Step);
    assert_eq!(parse_command("  \n"), Command::Step);
    assert_eq!(parse_command("next"), Command::Step);
    assert_eq!(parse_command("B"), Command::Breakpoint);
    assert_eq!(parse_command(" c\n"), Command::Continue);
    assert_eq!(parse_command("r"), Command::Run);
    assert_eq!(parse_command("Q"), Command::Quit);
    assert_eq!(parse_command("x"), Command::Invalid);
}

#[test]
fn breakpoint_stops_continue_mode() {
    let a = Assembly::assemble("ADD 1, 6;\nADD 1, 6;\nADD 1, 6;\nADD 1, 6;").unwrap();
    let code = a.instructions;
    let mut vm = VM::new(a.reg_inits, a.mem_inits);
    let mut d = Debugger::new();
    assert_eq!(d.poll(&vm, &code), Poll::Prompt);
    vm.step(&code);
    vm.step(&code);
    assert_eq!(d.command(Command::Breakpoint, 2), Reply::Again);
    assert!(d.on_breakpoint(2));
    vm.registers[0] = 0;
    assert_eq!(d.command(Command::Continue, 0), Reply::Proceed);
    assert_eq!(d.poll(&vm, &code), Poll::Execute);
    vm.step(&code);
    assert_eq!(d.poll(&vm, &code), Poll::Execute);
    vm.step(&code);
    assert_eq!(d.poll(&vm, &code), Poll::Prompt);
    assert_eq!(d.command(Command::Breakpoint, 2), Reply::Again);
    assert!(!d.on_breakpoint(2));
    assert_eq!(d.poll(&vm, &code), Poll::Execute);
}

#[test]
fn quit_and_completion() {
    let a = Assembly::assemble("ADD 1, 6;").unwrap();
    let code = a.instructions;
    let mut vm = VM::new(a.reg_inits, a.mem_inits);
    let mut d = Debugger::new();
    assert_eq!(d.command(Command::Quit, 0), Reply::Quit);
    assert_eq!(d.command(Command::Invalid, 0), Reply::Invalid);
    assert_eq!(d.command(Command::Run, 0), Reply::Proceed);
    assert_eq!(d.poll(&vm, &code), Poll::Execute);
    vm.step(&code);
    assert_eq!(d.poll(&vm, &code), Poll::Completed);
    let empty: HashMap<i64, i64> = HashMap::new();
    assert_eq!(vm.memory, empty);
}
