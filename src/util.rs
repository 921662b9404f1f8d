//! Text forms of instructions.
use vstd::prelude::*;
use vstd::string::StringExecFns;

use crate::assembler::Instruction;
use crate::vm::instr_ok;

verus! {

pub open spec fn hex_char(d: nat) -> char {
    if d < 10 {
        (('0' as u8) + d) as char
    } else {
        (('A' as u8) + d - 10) as char
    }
}

/// Upper-case hexadecimal digits of `n`, without leading zeros.
pub open spec fn hex_digits(n: nat) -> Seq<char>
    decreases n,
{
    if n < 16 {
        seq![hex_char(n)]
    } else {
        hex_digits(n / 16).push(hex_char(n % 16))
    }
}

/// Relies on std's `{:X}` formatting of an `i64`: upper-case hexadecimal digits of its
/// two's-complement bits, without leading zeros.
#[verifier::external_body]
fn hex_of(n: i64) -> (r: String)
    ensures
        r@ == hex_digits(n as u64 as nat),
{
    format!("{:X}", n)
}

pub open spec fn hex(n: i64) -> Seq<char> {
    hex_digits(n as u64 as nat)
}

/// An instruction as text: its mnemonic, then its operands in hexadecimal. A branch shows
/// the address that runs next, one past its operand.
pub open spec fn op_text(op: Instruction) -> Seq<char> {
    match op {
        Instruction::GO(a) => "GO "@ + hex((a + 1) as i64),
        Instruction::BIN(a) => "BIN "@ + hex((a + 1) as i64),
        Instruction::BIZ(a) => "BIZ "@ + hex((a + 1) as i64),
        Instruction::ADD(a, b) => "ADD "@ + hex(a) + ", "@ + hex(b),
        Instruction::AND(a, b) => "AND "@ + hex(a) + ", "@ + hex(b),
        Instruction::LS(a, b) => "LS "@ + hex(a) + ", "@ + hex(b),
        Instruction::MV(a, b) => "MV "@ + hex(a) + ", "@ + hex(b),
        Instruction::NOT(a, b) => "NOT "@ + hex(a) + ", "@ + hex(b),
        Instruction::RB(a) => "RB "@ + hex(a),
        Instruction::RD => "RD"@,
        Instruction::RS(a, b) => "RS "@ + hex(a) + ", "@ + hex(b),
        Instruction::SA(a) => "SA "@ + hex(a),
        Instruction::SB(a) => "SB "@ + hex(a),
        Instruction::SF(a) => "SF "@ + hex(a),
        Instruction::SW(a, b) => "SW "@ + hex(a) + ", "@ + hex(b),
        Instruction::WR => "WR"@,
        Instruction::PRINT => "PRINT"@,
    }
}

fn unary(name: &str, a: i64) -> (r: String)
    ensures
        r@ == name@ + hex(a),
{
    let mut s = String::from_str(name);
    s.append(hex_of(a).as_str());
    s
}

fn binary(name: &str, a: i64, b: i64) -> (r: String)
    ensures
        r@ == name@ + hex(a) + ", "@ + hex(b),
{
    let mut s = String::from_str(name);
    s.append(hex_of(a).as_str());
    s.append(", ");
    s.append(hex_of(b).as_str());
    s
}

/// The text of an instruction, as a listing shows it.
pub fn op_to_string(op: &Instruction) -> (r: String)
    requires
        instr_ok(*op, i64::MAX as int),
    ensures
        r@ == op_text(*op),
{
    match op {
        Instruction::GO(a) => unary("GO ", *a + 1),
        Instruction::BIN(a) => unary("BIN ", *a + 1),
        Instruction::BIZ(a) => unary("BIZ ", *a + 1),
        Instruction::ADD(a, b) => binary("ADD ", *a, *b),
        Instruction::AND(a, b) => binary("AND ", *a, *b),
        Instruction::LS(a, b) => binary("LS ", *a, *b),
        Instruction::MV(a, b) => binary("MV ", *a, *b),
        Instruction::NOT(a, b) => binary("NOT ", *a, *b),
        Instruction::RB(a) => unary("RB ", *a),
        Instruction::RD => String::from_str("RD"),
        Instruction::RS(a, b) => binary("RS ", *a, *b),
        Instruction::SA(a) => unary("SA ", *a),
        Instruction::SB(a) => unary("SB ", *a),
        Instruction::SF(a) => unary("SF ", *a),
        Instruction::SW(a, b) => binary("SW ", *a, *b),
        Instruction::WR => String::from_str("WR"),
        Instruction::PRINT => String::from_str("PRINT"),
    }
}

} // verus!
