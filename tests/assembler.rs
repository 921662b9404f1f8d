use vmal::assembler::{source_line, AsmError, Assembly, Base, ErrorKind, Instruction};

fn fails(src: &str) -> AsmError {
    match Assembly::assemble(src) {
        Ok(a) => panic!("assembled: {:?}", a),
        Err(e) => e,
    }
}

#[test]
fn test_comments() {
    let a = Assembly::assemble("#test").unwrap();
    assert_eq!(a.instructions.len(), 0);
    let b = Assembly::assemble("#test\nADD A, B;").unwrap();
    assert_eq!(b.instructions.len(), 1);
    let c = Assembly::assemble("ADD A, B; #Test").unwrap();
    assert_eq!(c.instructions.len(), 1);
    assert!(matches!(c.instructions[0], Instruction::ADD(..)));
}

#[test]
fn test_register_init() {
    let decimal = Assembly::assemble("4: 1024;").unwrap();
    assert_eq!(decimal.reg_inits[0], (4, 1024));
    let hex = Assembly::assemble("4: 0x1D;").unwrap();
    assert_eq!(hex.reg_inits[0], (4, 0x1D));
    let binary = Assembly::assemble("4: 0b1010;").unwrap();
    assert_eq!(binary.reg_inits[0], (4, 0b1010));
}

#[test]
fn test_memory_init() {
    let a = Assembly::assemble("[1024]: 34;").unwrap();
    assert_eq!(a.mem_inits[0], (1024, 34));
    let b = Assembly::assemble("[0x401]: 0b101;").unwrap();
    assert_eq!(b.mem_inits[0], (0x401, 0b101));
    let c = Assembly::assemble("[0b10000000010]: 0x10;").unwrap();
    assert_eq!(c.mem_inits[0], (0b10000000010, 0x10));
    let d = Assembly::assemble("[1056]: 34;").unwrap();
    assert_eq!(d.mem_inits[0], (1056, 34));
}

#[test]
fn test_instructions() {
    let a = Assembly::assemble("ADD E, A;").unwrap();
    assert_eq!(a.instructions.len(), 1);
    assert_eq!(a.instructions[0], Instruction::ADD(0xe, 0xa));
    let a = Assembly::assemble("AdD e, A;").unwrap();
    assert_eq!(a.instructions.len(), 1);
    assert_eq!(a.instructions[0], Instruction::ADD(0xe, 0xa));
    let a = Assembly::assemble("LBL JumpHere;\nADD E, 7;\nSF E;\nBIZ JumpHere;").unwrap();
    assert_eq!(a.instructions.len(), 3);
    assert_eq!(a.instructions[0], Instruction::ADD(0xe, 0x7));
    assert_eq!(a.instructions[1], Instruction::SF(0xe));
    assert_eq!(a.instructions[2], Instruction::BIZ(-1));
}

#[test]
fn same_source_same_result() {
    let src = "1: 5;\n[3]: 0x7;\nLBL top;\nADD 1, 6;\nSF 1;\nBIN top;\nGO top;";
    let a = Assembly::assemble(src).unwrap();
    let b = Assembly::assemble(src).unwrap();
    assert_eq!(a.instructions, b.instructions);
    assert_eq!(a.reg_inits, b.reg_inits);
    assert_eq!(a.mem_inits, b.mem_inits);
}

#[test]
fn comments_and_blank_lines_change_nothing() {
    let a = Assembly::assemble("#x\nADD A,B;").unwrap();
    let b = Assembly::assemble("ADD A,B; #x").unwrap();
    let c = Assembly::assemble("\n   \n\t# only a comment\nADD A,B;\n\n").unwrap();
    assert_eq!(a.instructions, vec![Instruction::ADD(0xA, 0xB)]);
    assert_eq!(b.instructions, vec![Instruction::ADD(0xA, 0xB)]);
    assert_eq!(c.instructions, vec![Instruction::ADD(0xA, 0xB)]);
}

#[test]
fn mnemonics_and_registers_ignore_case() {
    let a = Assembly::assemble("ADD E, A;\nsf b;\nprint;").unwrap();
    let b = Assembly::assemble("AdD e, A;\nSF B;\nPrInT;").unwrap();
    assert_eq!(a.instructions, b.instructions);
    assert_eq!(a.instructions[2], Instruction::PRINT);
}

#[test]
fn hex_and_binary_addresses_equal_decimal() {
    let a = Assembly::assemble("[1025]: 1;\n[0x401]: 1;\n[0b10000000001]: 1;").unwrap();
    assert_eq!(a.mem_inits, vec![(1025, 1), (1025, 1), (1025, 1)]);
}

#[test]
fn signed_and_large_literals() {
    let a = Assembly::assemble("3: -5;\n4: +7;\n[0x7fffffffffffffff]: 1;").unwrap();
    assert_eq!(a.reg_inits, vec![(3, -5), (4, 7)]);
    assert_eq!(a.mem_inits, vec![(i64::MAX, 1)]);
}

#[test]
fn forward_label_reference() {
    let a = Assembly::assemble("GO end;\nADD 1, 6;\nLBL end;\nRD;").unwrap();
    assert_eq!(
        a.instructions,
        vec![Instruction::GO(1), Instruction::ADD(1, 6), Instruction::RD]
    );
}

#[test]
fn every_operation_assembles() {
    let src = "SA 1;\nRB 2;\nRD;\nWR;\nSB 3;\nSF 4;\nLBL L;\nGO L;\nBIN L;\nBIZ L;\n\
               ADD 1,2;\nAND 3,4;\nMV 5,6;\nNOT 7,8;\nRS 9,A;\nLS B,C;\nSW D,F;\nPRINT;";
    let a = Assembly::assemble(src).unwrap();
    assert_eq!(
        a.instructions,
        vec![
            Instruction::SA(1),
            Instruction::RB(2),
            Instruction::RD,
            Instruction::WR,
            Instruction::SB(3),
            Instruction::SF(4),
            Instruction::GO(5),
            Instruction::BIN(5),
            Instruction::BIZ(5),
            Instruction::ADD(1, 2),
            Instruction::AND(3, 4),
            Instruction::MV(5, 6),
            Instruction::NOT(7, 8),
            Instruction::RS(9, 10),
            Instruction::LS(11, 12),
            Instruction::SW(13, 15),
            Instruction::PRINT,
        ]
    );
}

#[test]
fn undefined_label_aborts() {
    let e = fails("ADD 1, 2;\nGO nowhere;");
    assert_eq!(e, AsmError { line: 2, kind: ErrorKind::UndefinedLabel });
}

#[test]
fn duplicate_label_aborts() {
    let e = fails("LBL a;\nADD 1, 2;\nLBL a;");
    assert_eq!(e, AsmError { line: 3, kind: ErrorKind::DuplicateLabel });
}

#[test]
fn missing_semicolon_aborts() {
    let e = fails("ADD 1, 2;\nADD 1, 2");
    assert_eq!(e, AsmError { line: 2, kind: ErrorKind::MissingSemicolon });
}

#[test]
fn wrong_arity_aborts() {
    assert_eq!(fails("ADD 1;").kind, ErrorKind::WrongArity { expected: 2, got: 1 });
    assert_eq!(fails("SA 1, 2;").kind, ErrorKind::WrongArity { expected: 1, got: 2 });
    assert_eq!(fails("RD 1;").kind, ErrorKind::WrongArity { expected: 0, got: 1 });
    assert_eq!(fails("GO a, b;").kind, ErrorKind::WrongArity { expected: 1, got: 2 });
}

#[test]
fn first_fault_wins() {
    let e = fails("GO missing;\nADD 1;\nFOO 1;");
    assert_eq!(e, AsmError { line: 2, kind: ErrorKind::WrongArity { expected: 2, got: 1 } });
}

#[test]
fn each_syntax_error() {
    assert_eq!(fails("ADD 1, 2; ADD").kind, ErrorKind::TrailingContent);
    assert_eq!(fails("G: 5;").kind, ErrorKind::InvalidRegister);
    assert_eq!(fails("ADD 1, 10;").kind, ErrorKind::InvalidRegister);
    assert_eq!(fails("SA X;").kind, ErrorKind::InvalidRegister);
    assert_eq!(fails("4: 0xZZ;").kind, ErrorKind::InvalidLiteral(Base::Hexadecimal));
    assert_eq!(fails("4: 0b12;").kind, ErrorKind::InvalidLiteral(Base::Binary));
    assert_eq!(fails("[abc]: 1;").kind, ErrorKind::InvalidLiteral(Base::Decimal));
    assert_eq!(fails("4: 99999999999999999999;").kind, ErrorKind::InvalidLiteral(Base::Decimal));
    assert_eq!(fails("reg: 5;").kind, ErrorKind::InvalidInitializer);
    assert_eq!(fails("ADD;").kind, ErrorKind::UnknownSequence);
    assert_eq!(fails("FOO 1;").kind, ErrorKind::UnknownOperation);
    assert_eq!(fails("LBL 123;").kind, ErrorKind::InvalidLabelName);
}

#[test]
fn label_names_need_a_letter_or_underscore() {
    assert!(Assembly::assemble("LBL _;").is_ok());
    assert!(Assembly::assemble("LBL 1a;").is_ok());
    assert_eq!(fails("LBL 42;").line, 1);
}

#[test]
fn diagnostic_line_text() {
    let src = "ADD 1, 2;\nGO nowhere; # jump\n";
    let e = fails(src);
    let text: String = source_line(src, e.line).into_iter().collect();
    assert_eq!(text, "GO nowhere; # jump");
    assert!(source_line(src, 3).is_empty());
    assert!(source_line(src, 4).is_empty());
    assert!(source_line(src, 0).is_empty());
    let first: String = source_line(src, 1).into_iter().collect();
    assert_eq!(first, "ADD 1, 2;");
}

#[test]
fn unicode_whitespace_is_trimmed() {
    let a = Assembly::assemble("\t ADD 1 ,\u{a0}2 ;\u{3000}\r").unwrap();
    assert_eq!(a.instructions, vec![Instruction::ADD(1, 2)]);
    assert_eq!(fails("ADD\t1,2;").kind, ErrorKind::UnknownSequence);
    assert_eq!(fails("ADD\t1, 2;").kind, ErrorKind::UnknownOperation);
}
