//! The two-pass assembler: source text to initializers and a resolved instruction list.
use vstd::prelude::*;

use crate::vm::{instr_ok, inits_ok, reg_ok};
use crate::text::{
    chars_of, digit_of, digit_value, digits_value, find, find_char, find_char_from, find_from,
    parse_int, parse_radix, same_but_case, same_chars, slice, to_upper, trim, trimmed, upper_word,
};

verus! {

/// One machine instruction. Register operands are indices 0 to 15; branch operands are
/// instruction addresses, one before the instruction that runs next.
#[derive(Clone, Copy, Debug, PartialEq, Eq, Structural)]
#[allow(non_camel_case_types)]
pub enum Instruction {
    SA(i64),
    RB(i64),
    RD,
    WR,
    PRINT,
    SB(i64),
    SF(i64),
    GO(i64),
    BIN(i64),
    BIZ(i64),
    ADD(i64, i64),
    AND(i64, i64),
    MV(i64, i64),
    NOT(i64, i64),
    RS(i64, i64),
    LS(i64, i64),
    SW(i64, i64),
}

/// The three instructions that take a label.
#[derive(Clone, Copy, Debug, PartialEq, Eq, Structural)]
pub enum Branch {
    Go,
    Bin,
    Biz,
}

impl Branch {
    pub open spec fn spec_to(self, target: i64) -> Instruction {
        match self {
            Branch::Go => Instruction::GO(target),
            Branch::Bin => Instruction::BIN(target),
            Branch::Biz => Instruction::BIZ(target),
        }
    }

    /// The instruction that jumps to `target`.
    #[verifier::when_used_as_spec(spec_to)]
    pub fn to(self, target: i64) -> (r: Instruction)
        ensures
            r == self.spec_to(target),
    {
        match self {
            Branch::Go => Instruction::GO(target),
            Branch::Bin => Instruction::BIN(target),
            Branch::Biz => Instruction::BIZ(target),
        }
    }
}

/// The base of a numeric literal that failed to parse.
#[derive(Clone, Copy, Debug, PartialEq, Eq, Structural)]
pub enum Base {
    Hexadecimal,
    Binary,
    Decimal,
}

/// What is wrong with a line of source.
#[derive(Clone, Copy, Debug, PartialEq, Eq, Structural)]
pub enum ErrorKind {
    MissingSemicolon,
    TrailingContent,
    InvalidRegister,
    InvalidLiteral(Base),
    InvalidInitializer,
    UnknownSequence,
    UnknownOperation,
    WrongArity { expected: usize, got: usize },
    InvalidLabelName,
    DuplicateLabel,
    UndefinedLabel,
}

/// An assembly failure, with the 1-based number of the line at fault.
#[derive(Clone, Copy, Debug, PartialEq, Eq, Structural)]
pub struct AsmError {
    pub line: usize,
    pub kind: ErrorKind,
}

/// The operation words of the language, `LBL` included.
#[derive(Clone, Copy, Debug, PartialEq, Eq, Structural)]
pub enum Mnemonic {
    Sa,
    Rb,
    Rd,
    Wr,
    Sb,
    Sf,
    Lbl,
    Go,
    Bin,
    Biz,
    Add,
    And,
    Mv,
    Not,
    Rs,
    Ls,
    Sw,
    Print,
}

/// What one line of source says.
pub enum Stmt {
    Blank,
    RegInit(i64, i64),
    MemInit(i64, i64),
    Label(Seq<char>),
    Op(Instruction),
    Jump(Branch, Seq<char>),
    Fail(ErrorKind),
}

/// The mnemonic that an upper-cased word names.
pub open spec fn mnemonic_of(u: Seq<char>) -> Option<Mnemonic> {
    if u == seq!['S', 'A'] {
        Some(Mnemonic::Sa)
    } else if u == seq!['R', 'B'] {
        Some(Mnemonic::Rb)
    } else if u == seq!['R', 'D'] {
        Some(Mnemonic::Rd)
    } else if u == seq!['W', 'R'] {
        Some(Mnemonic::Wr)
    } else if u == seq!['S', 'B'] {
        Some(Mnemonic::Sb)
    } else if u == seq!['S', 'F'] {
        Some(Mnemonic::Sf)
    } else if u == seq!['L', 'B', 'L'] {
        Some(Mnemonic::Lbl)
    } else if u == seq!['G', 'O'] {
        Some(Mnemonic::Go)
    } else if u == seq!['B', 'I', 'N'] {
        Some(Mnemonic::Bin)
    } else if u == seq!['B', 'I', 'Z'] {
        Some(Mnemonic::Biz)
    } else if u == seq!['A', 'D', 'D'] {
        Some(Mnemonic::Add)
    } else if u == seq!['A', 'N', 'D'] {
        Some(Mnemonic::And)
    } else if u == seq!['M', 'V'] {
        Some(Mnemonic::Mv)
    } else if u == seq!['N', 'O', 'T'] {
        Some(Mnemonic::Not)
    } else if u == seq!['R', 'S'] {
        Some(Mnemonic::Rs)
    } else if u == seq!['L', 'S'] {
        Some(Mnemonic::Ls)
    } else if u == seq!['S', 'W'] {
        Some(Mnemonic::Sw)
    } else if u == seq!['P', 'R', 'I', 'N', 'T'] {
        Some(Mnemonic::Print)
    } else {
        None
    }
}

/// A numeric literal: `0x` hexadecimal, `0b` binary, else decimal.
pub open spec fn number_spec(s: Seq<char>) -> Result<i64, Base> {
    if s.len() >= 2 && s[0] == '0' && s[1] == 'x' {
        match parse_int(s.subrange(2, s.len() as int), 16) {
            Some(v) => Ok(v),
            None => Err(Base::Hexadecimal),
        }
    } else if s.len() >= 2 && s[0] == '0' && s[1] == 'b' {
        match parse_int(s.subrange(2, s.len() as int), 2) {
            Some(v) => Ok(v),
            None => Err(Base::Binary),
        }
    } else {
        match parse_int(s, 10) {
            Some(v) => Ok(v),
            None => Err(Base::Decimal),
        }
    }
}

/// A register operand: exactly one hexadecimal digit.
pub open spec fn register_of(s: Seq<char>) -> Option<i64> {
    if s.len() == 1 && digit_of(s[0], 16) >= 0 {
        Some(digit_of(s[0], 16) as i64)
    } else {
        None
    }
}

/// `<register>: <literal>` or `[<literal>]: <literal>`, both sides trimmed.
pub open spec fn initializer(loc: Seq<char>, val: Seq<char>) -> Stmt {
    if loc.len() == 1 && (loc[0] as u32) < 0x80 {
        match parse_int(loc, 16) {
            None => Stmt::Fail(ErrorKind::InvalidRegister),
            Some(r) => match number_spec(val) {
                Err(b) => Stmt::Fail(ErrorKind::InvalidLiteral(b)),
                Ok(v) => Stmt::RegInit(r, v),
            },
        }
    } else if loc.len() >= 2 && loc[0] == '[' && loc.last() == ']' {
        match number_spec(loc.subrange(1, loc.len() - 1)) {
            Err(b) => Stmt::Fail(ErrorKind::InvalidLiteral(b)),
            Ok(a) => match number_spec(val) {
                Err(b) => Stmt::Fail(ErrorKind::InvalidLiteral(b)),
                Ok(v) => Stmt::MemInit(a, v),
            },
        }
    } else {
        Stmt::Fail(ErrorKind::InvalidInitializer)
    }
}

/// The comma-separated arguments in `s` from index `i` on, trimmed, empty ones left out.
pub open spec fn args_from(s: Seq<char>, i: int) -> Seq<Seq<char>>
    decreases s.len() - i,
{
    if i < 0 || i > s.len() {
        Seq::empty()
    } else {
        let j = find_from(s, ',', i);
        let found = i <= j < s.len();
        let end = if found {
            j
        } else {
            s.len() as int
        };
        let piece = trim(s.subrange(i, end));
        let rest = if found {
            args_from(s, j + 1)
        } else {
            Seq::empty()
        };
        if piece.len() == 0 {
            rest
        } else {
            seq![piece] + rest
        }
    }
}

pub open spec fn args_spec(s: Seq<char>) -> Seq<Seq<char>> {
    args_from(s, 0)
}

pub open spec fn is_ident_start(c: char) -> bool {
    c == '_' || ('a' <= c && c <= 'z') || ('A' <= c && c <= 'Z')
}

/// Where the pattern `[_a-zA-Z][_a-zA-Z0-9]*` is found somewhere in `s`.
pub open spec fn has_ident_start(s: Seq<char>) -> bool {
    exists|i: int| 0 <= i < s.len() && is_ident_start(#[trigger] s[i])
}

pub open spec fn arity_fail(expected: usize, got: nat) -> Stmt {
    Stmt::Fail(ErrorKind::WrongArity { expected, got: got as usize })
}

/// A mnemonic applied to its arguments.
pub open spec fn operands(m: Mnemonic, args: Seq<Seq<char>>) -> Stmt {
    let n = args.len();
    match m {
        Mnemonic::Lbl | Mnemonic::Go | Mnemonic::Bin | Mnemonic::Biz => {
            if n != 1 {
                arity_fail(1, n)
            } else if m == Mnemonic::Lbl {
                if has_ident_start(args[0]) {
                    Stmt::Label(args[0])
                } else {
                    Stmt::Fail(ErrorKind::InvalidLabelName)
                }
            } else if m == Mnemonic::Go {
                Stmt::Jump(Branch::Go, args[0])
            } else if m == Mnemonic::Bin {
                Stmt::Jump(Branch::Bin, args[0])
            } else {
                Stmt::Jump(Branch::Biz, args[0])
            }
        },
        Mnemonic::Rd | Mnemonic::Wr | Mnemonic::Print => {
            if n != 0 {
                arity_fail(0, n)
            } else if m == Mnemonic::Rd {
                Stmt::Op(Instruction::RD)
            } else if m == Mnemonic::Wr {
                Stmt::Op(Instruction::WR)
            } else {
                Stmt::Op(Instruction::PRINT)
            }
        },
        Mnemonic::Sa | Mnemonic::Rb | Mnemonic::Sb | Mnemonic::Sf => {
            if n != 1 {
                arity_fail(1, n)
            } else {
                match register_of(args[0]) {
                    None => Stmt::Fail(ErrorKind::InvalidRegister),
                    Some(x) => Stmt::Op(one_reg(m, x)),
                }
            }
        },
        _ => {
            if n != 2 {
                arity_fail(2, n)
            } else {
                match (register_of(args[0]), register_of(args[1])) {
                    (Some(a), Some(b)) => Stmt::Op(two_reg(m, a, b)),
                    _ => Stmt::Fail(ErrorKind::InvalidRegister),
                }
            }
        },
    }
}

pub open spec fn one_reg(m: Mnemonic, x: i64) -> Instruction {
    match m {
        Mnemonic::Sa => Instruction::SA(x),
        Mnemonic::Rb => Instruction::RB(x),
        Mnemonic::Sb => Instruction::SB(x),
        _ => Instruction::SF(x),
    }
}

pub open spec fn two_reg(m: Mnemonic, a: i64, b: i64) -> Instruction {
    match m {
        Mnemonic::Add => Instruction::ADD(a, b),
        Mnemonic::And => Instruction::AND(a, b),
        Mnemonic::Mv => Instruction::MV(a, b),
        Mnemonic::Not => Instruction::NOT(a, b),
        Mnemonic::Rs => Instruction::RS(a, b),
        Mnemonic::Ls => Instruction::LS(a, b),
        _ => Instruction::SW(a, b),
    }
}

/// An instruction statement (trimmed, without its `;`): the mnemonic up to the first
/// space, case-insensitive, then the arguments.
pub open spec fn instruction_spec(c: Seq<char>) -> Stmt {
    let sp = find(c, ' ');
    let op = if sp >= 0 {
        c.subrange(0, sp)
    } else {
        c
    };
    let rest = if sp >= 0 {
        c.subrange(sp + 1, c.len() as int)
    } else {
        Seq::empty()
    };
    let m = mnemonic_of(upper_word(op));
    if sp < 0 && !(m == Some(Mnemonic::Rd) || m == Some(Mnemonic::Wr) || m == Some(
        Mnemonic::Print,
    )) {
        Stmt::Fail(ErrorKind::UnknownSequence)
    } else {
        match m {
            None => Stmt::Fail(ErrorKind::UnknownOperation),
            Some(m) => operands(m, args_spec(rest)),
        }
    }
}

/// A statement without its `;`: an initializer where it holds a `:`, else an instruction.
pub open spec fn statement(c: Seq<char>) -> Stmt {
    let k = find(c, ':');
    if k >= 0 {
        initializer(trim(c.subrange(0, k)), trim(c.subrange(k + 1, c.len() as int)))
    } else {
        instruction_spec(trim(c))
    }
}

/// `line` without its comment, if it has one.
pub open spec fn strip_comment(line: Seq<char>) -> Seq<char> {
    let h = find(line, '#');
    if h >= 0 {
        line.subrange(0, h)
    } else {
        line
    }
}

/// What one line of source says.
pub open spec fn classify(line: Seq<char>) -> Stmt {
    let code = trim(strip_comment(line));
    if code.len() == 0 {
        Stmt::Blank
    } else {
        let k = find(code, ';');
        if k < 0 {
            Stmt::Fail(ErrorKind::MissingSemicolon)
        } else if trim(code.subrange(k + 1, code.len() as int)).len() > 0 {
            Stmt::Fail(ErrorKind::TrailingContent)
        } else {
            statement(code.subrange(0, k))
        }
    }
}

/// The identifier pattern of label names; a name must hold a match of it.
pub const LABEL_PATTERN: &'static str = "[_a-zA-Z][_a-zA-Z0-9]*";

/// Relies on `regex::Regex::new` and `regex::Regex::is_match`: the label pattern
/// compiles, and an unanchored search finds it exactly where `name` holds an ASCII letter
/// or an underscore.
#[verifier::external_body]
fn is_cname(name: &Vec<char>) -> (r: bool)
    ensures
        r == has_ident_start(name@),
{
    let text: String = name.iter().collect();
    match regex::Regex::new(LABEL_PATTERN) {
        Ok(re) => re.is_match(&text),
        Err(_) => false,
    }
}

/// A line of source, parsed on its own.
enum Parsed {
    Blank,
    RegInit(i64, i64),
    MemInit(i64, i64),
    Label(Vec<char>),
    Op(Instruction),
    Jump(Branch, Vec<char>),
    Fail(ErrorKind),
}

impl View for Parsed {
    type V = Stmt;

    closed spec fn view(&self) -> Stmt {
        match self {
            Parsed::Blank => Stmt::Blank,
            Parsed::RegInit(r, v) => Stmt::RegInit(*r, *v),
            Parsed::MemInit(a, v) => Stmt::MemInit(*a, *v),
            Parsed::Label(n) => Stmt::Label(n@),
            Parsed::Op(i) => Stmt::Op(*i),
            Parsed::Jump(b, n) => Stmt::Jump(*b, n@),
            Parsed::Fail(k) => Stmt::Fail(*k),
        }
    }
}

pub open spec fn views(v: Seq<Vec<char>>) -> Seq<Seq<char>> {
    v.map_values(|x: Vec<char>| x@)
}

/// Reads a numeric literal: `0x` hexadecimal, `0b` binary, else decimal.
pub fn parse_number(s: &Vec<char>) -> (r: Result<i64, Base>)
    ensures
        r == number_spec(s@),
{
    let n = s.len();
    if n >= 2 && s[0] == '0' && s[1] == 'x' {
        match parse_radix(&slice(s, 2, n), 16) {
            Some(v) => Ok(v),
            None => Err(Base::Hexadecimal),
        }
    } else if n >= 2 && s[0] == '0' && s[1] == 'b' {
        match parse_radix(&slice(s, 2, n), 2) {
            Some(v) => Ok(v),
            None => Err(Base::Binary),
        }
    } else {
        match parse_radix(s, 10) {
            Some(v) => Ok(v),
            None => Err(Base::Decimal),
        }
    }
}

fn register(s: &Vec<char>) -> (r: Option<i64>)
    ensures
        r == register_of(s@),
{
    if s.len() == 1 {
        let d = digit_value(s[0], 16);
        if d >= 0 {
            return Some(d);
        }
    }
    None
}

fn parse_initializer(loc: &Vec<char>, val: &Vec<char>) -> (r: Parsed)
    ensures
        r@ == initializer(loc@, val@),
{
    let n = loc.len();
    if n == 1 && (loc[0] as u32) < 0x80 {
        match parse_radix(loc, 16) {
            None => Parsed::Fail(ErrorKind::InvalidRegister),
            Some(r) => match parse_number(val) {
                Err(b) => Parsed::Fail(ErrorKind::InvalidLiteral(b)),
                Ok(v) => Parsed::RegInit(r, v),
            },
        }
    } else if n >= 2 && loc[0] == '[' && loc[n - 1] == ']' {
        match parse_number(&slice(loc, 1, n - 1)) {
            Err(b) => Parsed::Fail(ErrorKind::InvalidLiteral(b)),
            Ok(a) => match parse_number(val) {
                Err(b) => Parsed::Fail(ErrorKind::InvalidLiteral(b)),
                Ok(v) => Parsed::MemInit(a, v),
            },
        }
    } else {
        Parsed::Fail(ErrorKind::InvalidInitializer)
    }
}

/// The comma-separated arguments of `s`, trimmed, empty ones left out.
fn split_args(s: &Vec<char>) -> (r: Vec<Vec<char>>)
    ensures
        views(r@) == args_spec(s@),
{
    let mut out: Vec<Vec<char>> = Vec::new();
    let mut i: usize = 0;
    loop
        invariant
            i <= s@.len(),
            views(out@) + args_from(s@, i as int) == args_spec(s@),
        decreases s@.len() - i,
    {
        let n = s.len();
        let j = find_char_from(s, ',', i);
        proof {
            crate::text::lemma_find_from_range(s@, ',', i as int);
        }
        let end = match j {
            Some(j) => j,
            None => s.len(),
        };
        let piece = trimmed(&slice(s, i, end));
        let ghost before = views(out@);
        if piece.len() > 0 {
            out.push(piece);
            assert(views(out@) =~= before + seq![piece@]);
        }
        match j {
            Some(j) => {
                assert(views(out@) + args_from(s@, j + 1) =~= args_spec(s@));
                i = j + 1;
            },
            None => {
                assert(views(out@) =~= args_spec(s@));
                return out;
            },
        }
    }
}

fn mnemonic(u: &Vec<char>) -> (r: Option<Mnemonic>)
    ensures
        r == mnemonic_of(u@),
{
    if same_chars(u, &['S', 'A']) {
        Some(Mnemonic::Sa)
    } else if same_chars(u, &['R', 'B']) {
        Some(Mnemonic::Rb)
    } else if same_chars(u, &['R', 'D']) {
        Some(Mnemonic::Rd)
    } else if same_chars(u, &['W', 'R']) {
        Some(Mnemonic::Wr)
    } else if same_chars(u, &['S', 'B']) {
        Some(Mnemonic::Sb)
    } else if same_chars(u, &['S', 'F']) {
        Some(Mnemonic::Sf)
    } else if same_chars(u, &['L', 'B', 'L']) {
        Some(Mnemonic::Lbl)
    } else if same_chars(u, &['G', 'O']) {
        Some(Mnemonic::Go)
    } else if same_chars(u, &['B', 'I', 'N']) {
        Some(Mnemonic::Bin)
    } else if same_chars(u, &['B', 'I', 'Z']) {
        Some(Mnemonic::Biz)
    } else if same_chars(u, &['A', 'D', 'D']) {
        Some(Mnemonic::Add)
    } else if same_chars(u, &['A', 'N', 'D']) {
        Some(Mnemonic::And)
    } else if same_chars(u, &['M', 'V']) {
        Some(Mnemonic::Mv)
    } else if same_chars(u, &['N', 'O', 'T']) {
        Some(Mnemonic::Not)
    } else if same_chars(u, &['R', 'S']) {
        Some(Mnemonic::Rs)
    } else if same_chars(u, &['L', 'S']) {
        Some(Mnemonic::Ls)
    } else if same_chars(u, &['S', 'W']) {
        Some(Mnemonic::Sw)
    } else if same_chars(u, &['P', 'R', 'I', 'N', 'T']) {
        Some(Mnemonic::Print)
    } else {
        None
    }
}

fn parse_operands(m: Mnemonic, args: Vec<Vec<char>>) -> (r: Parsed)
    ensures
        r@ == operands(m, views(args@)),
{
    let n = args.len();
    let ghost a = views(args@);
    assert(a.len() == n);
    match m {
        Mnemonic::Lbl | Mnemonic::Go | Mnemonic::Bin | Mnemonic::Biz => {
            if n != 1 {
                Parsed::Fail(ErrorKind::WrongArity { expected: 1, got: n })
            } else {
                let name = args[0].clone();
                assert(name@ == a[0]);
                if m == Mnemonic::Lbl {
                    if is_cname(&name) {
                        Parsed::Label(name)
                    } else {
                        Parsed::Fail(ErrorKind::InvalidLabelName)
                    }
                } else if m == Mnemonic::Go {
                    Parsed::Jump(Branch::Go, name)
                } else if m == Mnemonic::Bin {
                    Parsed::Jump(Branch::Bin, name)
                } else {
                    Parsed::Jump(Branch::Biz, name)
                }
            }
        },
        Mnemonic::Rd | Mnemonic::Wr | Mnemonic::Print => {
            if n != 0 {
                Parsed::Fail(ErrorKind::WrongArity { expected: 0, got: n })
            } else if m == Mnemonic::Rd {
                Parsed::Op(Instruction::RD)
            } else if m == Mnemonic::Wr {
                Parsed::Op(Instruction::WR)
            } else {
                Parsed::Op(Instruction::PRINT)
            }
        },
        Mnemonic::Sa | Mnemonic::Rb | Mnemonic::Sb | Mnemonic::Sf => {
            if n != 1 {
                Parsed::Fail(ErrorKind::WrongArity { expected: 1, got: n })
            } else {
                assert(args@[0]@ == a[0]);
                match register(&args[0]) {
                    None => Parsed::Fail(ErrorKind::InvalidRegister),
                    Some(x) => Parsed::Op(
                        match m {
                            Mnemonic::Sa => Instruction::SA(x),
                            Mnemonic::Rb => Instruction::RB(x),
                            Mnemonic::Sb => Instruction::SB(x),
                            _ => Instruction::SF(x),
                        },
                    ),
                }
            }
        },
        _ => {
            if n != 2 {
                Parsed::Fail(ErrorKind::WrongArity { expected: 2, got: n })
            } else {
                assert(args@[0]@ == a[0]);
                assert(args@[1]@ == a[1]);
                match (register(&args[0]), register(&args[1])) {
                    (Some(x), Some(y)) => Parsed::Op(
                        match m {
                            Mnemonic::Add => Instruction::ADD(x, y),
                            Mnemonic::And => Instruction::AND(x, y),
                            Mnemonic::Mv => Instruction::MV(x, y),
                            Mnemonic::Not => Instruction::NOT(x, y),
                            Mnemonic::Rs => Instruction::RS(x, y),
                            Mnemonic::Ls => Instruction::LS(x, y),
                            _ => Instruction::SW(x, y),
                        },
                    ),
                    _ => Parsed::Fail(ErrorKind::InvalidRegister),
                }
            }
        },
    }
}

fn parse_instruction(c: &Vec<char>) -> (r: Parsed)
    ensures
        r@ == instruction_spec(c@),
{
    let n = c.len();
    let sp = find_char(c, ' ');
    proof {
        crate::text::lemma_find_from_range(c@, ' ', 0);
    }
    let (op, rest) = match sp {
        Some(k) => (slice(c, 0, k), slice(c, k + 1, c.len())),
        None => (slice(c, 0, c.len()), Vec::new()),
    };
    assert(c@.subrange(0, c@.len() as int) =~= c@);
    assert(rest@ =~= (if find(c@, ' ') >= 0 {
        c@.subrange(find(c@, ' ') + 1, c@.len() as int)
    } else {
        Seq::empty()
    }));
    let m = mnemonic(&to_upper(&op));
    let zero_arg = m == Some(Mnemonic::Rd) || m == Some(Mnemonic::Wr) || m == Some(
        Mnemonic::Print,
    );
    if sp.is_none() && !zero_arg {
        return Parsed::Fail(ErrorKind::UnknownSequence);
    }
    match m {
        None => Parsed::Fail(ErrorKind::UnknownOperation),
        Some(m) => parse_operands(m, split_args(&rest)),
    }
}

fn parse_statement(c: &Vec<char>) -> (r: Parsed)
    ensures
        r@ == statement(c@),
{
    let n = c.len();
    match find_char(c, ':') {
        Some(k) => {
            proof {
                crate::text::lemma_find_from_range(c@, ':', 0);
            }
            parse_initializer(&trimmed(&slice(c, 0, k)), &trimmed(&slice(c, k + 1, c.len())))
        },
        None => parse_instruction(&trimmed(c)),
    }
}

fn parse_line(line: &Vec<char>) -> (r: Parsed)
    ensures
        r@ == classify(line@),
{
    let body = match find_char(line, '#') {
        Some(h) => {
            proof {
                crate::text::lemma_find_from_range(line@, '#', 0);
            }
            slice(line, 0, h)
        },
        None => slice(line, 0, line.len()),
    };
    assert(line@.subrange(0, line@.len() as int) =~= line@);
    let code = trimmed(&body);
    if code.len() == 0 {
        return Parsed::Blank;
    }
    match find_char(&code, ';') {
        None => Parsed::Fail(ErrorKind::MissingSemicolon),
        Some(k) => {
            proof {
                crate::text::lemma_find_from_range(code@, ';', 0);
            }
            let after = trimmed(&slice(&code, k + 1, code.len()));
            if after.len() > 0 {
                Parsed::Fail(ErrorKind::TrailingContent)
            } else {
                parse_statement(&slice(&code, 0, k))
            }
        },
    }
}

/// An instruction of the first pass: ready, or waiting for its label.
pub enum Pend {
    Ready(Instruction),
    Jump(Branch, Seq<char>, usize),
}

/// What the first pass has gathered.
pub struct FirstPass {
    pub reg_inits: Seq<(i64, i64)>,
    pub mem_inits: Seq<(i64, i64)>,
    pub pending: Seq<Pend>,
    pub labels: Seq<(Seq<char>, i64)>,
}

/// The result of a successful assembly.
pub struct AssemblyModel {
    pub reg_inits: Seq<(i64, i64)>,
    pub mem_inits: Seq<(i64, i64)>,
    pub instructions: Seq<Instruction>,
}

/// The lines of `s`, split at each newline.
pub open spec fn lines(s: Seq<char>) -> Seq<Seq<char>>
    decreases s.len(),
{
    if s.len() == 0 {
        seq![Seq::empty()]
    } else {
        let p = lines(s.drop_last());
        if s.last() == '\n' {
            p.push(Seq::empty())
        } else {
            p.update(p.len() - 1, p.last().push(s.last()))
        }
    }
}

pub proof fn lemma_lines_len(s: Seq<char>)
    ensures
        1 <= lines(s).len() <= s.len() + 1,
    decreases s.len(),
{
    if s.len() > 0 {
        lemma_lines_len(s.drop_last());
    }
}

/// Where `name` is bound in `labels` from index `i` on.
pub open spec fn lookup_from(labels: Seq<(Seq<char>, i64)>, name: Seq<char>, i: int) -> Option<i64>
    decreases labels.len() - i,
{
    if i < 0 || i >= labels.len() {
        None
    } else if labels[i].0 == name {
        Some(labels[i].1)
    } else {
        lookup_from(labels, name, i + 1)
    }
}

pub open spec fn lookup(labels: Seq<(Seq<char>, i64)>, name: Seq<char>) -> Option<i64> {
    lookup_from(labels, name, 0)
}

pub open spec fn empty_pass() -> FirstPass {
    FirstPass {
        reg_inits: Seq::empty(),
        mem_inits: Seq::empty(),
        pending: Seq::empty(),
        labels: Seq::empty(),
    }
}

/// The first pass after the statement `s` of line `idx` (from 0). A label names the
/// instruction before it.
pub open spec fn apply(p: FirstPass, s: Stmt, idx: nat) -> Result<FirstPass, AsmError> {
    let line = (idx + 1) as usize;
    match s {
        Stmt::Blank => Ok(p),
        Stmt::RegInit(r, v) => Ok(FirstPass { reg_inits: p.reg_inits.push((r, v)), ..p }),
        Stmt::MemInit(a, v) => Ok(FirstPass { mem_inits: p.mem_inits.push((a, v)), ..p }),
        Stmt::Label(n) => if lookup(p.labels, n) is Some {
            Err(AsmError { line, kind: ErrorKind::DuplicateLabel })
        } else {
            Ok(FirstPass { labels: p.labels.push((n, (p.pending.len() - 1) as i64)), ..p })
        },
        Stmt::Op(i) => Ok(FirstPass { pending: p.pending.push(Pend::Ready(i)), ..p }),
        Stmt::Jump(b, n) => Ok(FirstPass { pending: p.pending.push(Pend::Jump(b, n, line)), ..p }),
        Stmt::Fail(k) => Err(AsmError { line, kind: k }),
    }
}

/// The first pass over `ls`, stopping at the first faulty line.
pub open spec fn first_pass(ls: Seq<Seq<char>>) -> Result<FirstPass, AsmError>
    decreases ls.len(),
{
    if ls.len() == 0 {
        Ok(empty_pass())
    } else {
        match first_pass(ls.drop_last()) {
            Err(e) => Err(e),
            Ok(p) => apply(p, classify(ls.last()), (ls.len() - 1) as nat),
        }
    }
}

/// Resolves `pending` from index `i` on, stopping at the first undefined label.
pub open spec fn resolve_from(pending: Seq<Pend>, labels: Seq<(Seq<char>, i64)>, i: int) -> Result<
    Seq<Instruction>,
    AsmError,
>
    decreases pending.len() - i,
{
    if i < 0 || i >= pending.len() {
        Ok(Seq::empty())
    } else {
        let first = match pending[i] {
            Pend::Ready(ins) => Ok(ins),
            Pend::Jump(b, n, line) => match lookup(labels, n) {
                Some(t) => Ok(b.spec_to(t)),
                None => Err(AsmError { line, kind: ErrorKind::UndefinedLabel }),
            },
        };
        match first {
            Err(e) => Err(e),
            Ok(ins) => match resolve_from(pending, labels, i + 1) {
                Err(e) => Err(e),
                Ok(rest) => Ok(seq![ins] + rest),
            },
        }
    }
}

/// What assembling `src` gives.
pub open spec fn assemble_spec(src: Seq<char>) -> Result<AssemblyModel, AsmError> {
    match first_pass(lines(src)) {
        Err(e) => Err(e),
        Ok(p) => match resolve_from(p.pending, p.labels, 0) {
            Err(e) => Err(e),
            Ok(ins) => Ok(
                AssemblyModel {
                    reg_inits: p.reg_inits,
                    mem_inits: p.mem_inits,
                    instructions: ins,
                },
            ),
        },
    }
}

/// An instruction of the first pass, in executable form.
enum Pending {
    Ready(Instruction),
    Jump(Branch, Vec<char>, usize),
}

impl View for Pending {
    type V = Pend;

    closed spec fn view(&self) -> Pend {
        match self {
            Pending::Ready(i) => Pend::Ready(*i),
            Pending::Jump(b, n, l) => Pend::Jump(*b, n@, *l),
        }
    }
}

pub open spec fn label_views(v: Seq<(Vec<char>, i64)>) -> Seq<(Seq<char>, i64)> {
    v.map_values(|e: (Vec<char>, i64)| (e.0@, e.1))
}

struct PassState {
    reg_inits: Vec<(i64, i64)>,
    mem_inits: Vec<(i64, i64)>,
    pending: Vec<Pending>,
    labels: Vec<(Vec<char>, i64)>,
}

impl View for PassState {
    type V = FirstPass;

    closed spec fn view(&self) -> FirstPass {
        FirstPass {
            reg_inits: self.reg_inits@,
            mem_inits: self.mem_inits@,
            pending: self.pending@.map_values(|p: Pending| p@),
            labels: label_views(self.labels@),
        }
    }
}

fn find_label(labels: &Vec<(Vec<char>, i64)>, name: &Vec<char>) -> (r: Option<i64>)
    ensures
        r == lookup(label_views(labels@), name@),
{
    let ghost lv = label_views(labels@);
    let mut i: usize = 0;
    while i < labels.len()
        invariant
            i <= labels@.len() == lv.len(),
            lv == label_views(labels@),
            lookup_from(lv, name@, i as int) == lookup(lv, name@),
        decreases labels@.len() - i,
    {
        assert(lv[i as int] == (labels@[i as int].0@, labels@[i as int].1));
        if same_chars(name, labels[i].0.as_slice()) {
            return Some(labels[i].1);
        }
        i += 1;
    }
    None
}

/// Records the statement of line `idx`; on a fault, returns it and leaves `st` as it was.
fn apply_line(st: &mut PassState, parsed: Parsed, idx: usize) -> (r: Option<AsmError>)
    requires
        idx < 0x7fff_ffff_ffff_ffff,
        idx < usize::MAX,
        old(st)@.pending.len() <= idx,
    ensures
        match apply(old(st)@, parsed@, idx as nat) {
            Ok(p) => r is None && final(st)@ == p,
            Err(e) => r == Some(e),
        },
        final(st)@.pending.len() <= idx + 1,
{
    let line = idx + 1;
    let ghost before = st@;
    match parsed {
        Parsed::Blank => None,
        Parsed::RegInit(r, v) => {
            st.reg_inits.push((r, v));
            assert(st@ == FirstPass { reg_inits: before.reg_inits.push((r, v)), ..before });
            None
        },
        Parsed::MemInit(a, v) => {
            st.mem_inits.push((a, v));
            assert(st@ == FirstPass { mem_inits: before.mem_inits.push((a, v)), ..before });
            None
        },
        Parsed::Label(n) => {
            if find_label(&st.labels, &n).is_some() {
                return Some(AsmError { line, kind: ErrorKind::DuplicateLabel });
            }
            let at = st.pending.len() as i64 - 1;
            let ghost nv = n@;
            st.labels.push((n, at));
            assert(label_views(st.labels@) =~= before.labels.push((nv, at)));
            assert(st@ == FirstPass { labels: before.labels.push((nv, at)), ..before });
            None
        },
        Parsed::Op(i) => {
            st.pending.push(Pending::Ready(i));
            assert(st.pending@.map_values(|p: Pending| p@) =~= before.pending.push(Pend::Ready(i)));
            None
        },
        Parsed::Jump(b, n) => {
            let ghost nv = n@;
            st.pending.push(Pending::Jump(b, n, line));
            assert(st.pending@.map_values(|p: Pending| p@) =~= before.pending.push(
                Pend::Jump(b, nv, line),
            ));
            None
        },
        Parsed::Fail(kind) => Some(AsmError { line, kind }),
    }
}

proof fn lemma_lines_step(s: Seq<char>, i: int)
    requires
        0 <= i < s.len(),
    ensures
        s.subrange(0, i + 1).drop_last() == s.subrange(0, i),
        s.subrange(0, i + 1).last() == s[i],
{
    assert(s.subrange(0, i + 1).drop_last() =~= s.subrange(0, i));
}

/// Register and memory initializers and the resolved instructions of a program.
#[derive(Debug)]
pub struct Assembly {
    pub reg_inits: Vec<(i64, i64)>,
    pub mem_inits: Vec<(i64, i64)>,
    pub instructions: Vec<Instruction>,
}

impl View for Assembly {
    type V = AssemblyModel;

    open spec fn view(&self) -> AssemblyModel {
        AssemblyModel {
            reg_inits: self.reg_inits@,
            mem_inits: self.mem_inits@,
            instructions: self.instructions@,
        }
    }
}

impl Assembly {
    /// Assembles `file`: all of it, or the first fault by line.
    pub fn assemble(file: &str) -> (r: Result<Assembly, AsmError>)
        requires
            file@.len() < 0x7fff_ffff_ffff_ffff,
            file@.len() < usize::MAX,
        ensures
            match r {
                Ok(a) => assemble_spec(file@) == Ok::<AssemblyModel, AsmError>(a@),
                Err(e) => assemble_spec(file@) == Err::<AssemblyModel, AsmError>(e),
            },
    {
        let src = chars_of(file);
        let mut st = PassState {
            reg_inits: Vec::new(),
            mem_inits: Vec::new(),
            pending: Vec::new(),
            labels: Vec::new(),
        };
        assert(st@ == empty_pass()) by {
            assert(st@.pending =~= Seq::<Pend>::empty());
            assert(st@.labels =~= Seq::<(Seq<char>, i64)>::empty());
        }
        let mut cur: Vec<char> = Vec::new();
        let mut idx: usize = 0;
        let mut err: Option<AsmError> = None;
        let mut i: usize = 0;
        assert(src@.subrange(0, 0) =~= Seq::<char>::empty());
        assert(lines(Seq::<char>::empty()).drop_last() =~= Seq::<Seq<char>>::empty());
        while i < src.len()
            invariant
                i <= src@.len() == file@.len(),
                file@.len() < 0x7fff_ffff_ffff_ffff,
                file@.len() < usize::MAX,
                lines(src@.subrange(0, i as int)).len() == idx + 1,
                cur@ == lines(src@.subrange(0, i as int)).last(),
                idx <= i,
                st@.pending.len() <= idx,
                match err {
                    Some(e) => first_pass(lines(src@.subrange(0, i as int)).drop_last()) == Err::<
                        FirstPass,
                        AsmError,
                    >(e),
                    None => first_pass(lines(src@.subrange(0, i as int)).drop_last()) == Ok::<
                        FirstPass,
                        AsmError,
                    >(st@),
                },
            decreases src@.len() - i,
        {
            let c = src[i];
            let ghost pre = lines(src@.subrange(0, i as int));
            proof {
                lemma_lines_step(src@, i as int);
                lemma_lines_len(src@.subrange(0, i as int));
            }
            if c == '\n' {
                assert(lines(src@.subrange(0, i + 1)) == pre.push(Seq::empty()));
                assert(pre.push(Seq::<char>::empty()).drop_last() =~= pre);
                assert(pre.drop_last() == pre.subrange(0, pre.len() - 1));
                assert(pre.last() == cur@);
                if err.is_none() {
                    let parsed = parse_line(&cur);
                    match apply_line(&mut st, parsed, idx) {
                        Some(e) => {
                            err = Some(e);
                        },
                        None => {},
                    }
                }
                cur = Vec::new();
                idx += 1;
            } else {
                let ghost nl = pre.update(pre.len() - 1, pre.last().push(c));
                assert(lines(src@.subrange(0, i + 1)) == nl);
                assert(nl.drop_last() =~= pre.drop_last());
                cur.push(c);
            }
            i += 1;
        }
        assert(src@.subrange(0, src@.len() as int) =~= src@);
        proof {
            lemma_lines_len(src@);
        }
        let ghost all = lines(src@);
        assert(all.drop_last().push(all.last()) =~= all);
        if let Some(e) = err {
            return Err(e);
        }
        match apply_line(&mut st, parse_line(&cur), idx) {
            Some(e) => {
                return Err(e);
            },
            None => {},
        }
        let mut out: Vec<Instruction> = Vec::new();
        let ghost pv = st@.pending;
        let ghost lv = st@.labels;
        let mut j: usize = 0;
        assert(out@ + Seq::<Instruction>::empty() =~= out@);
        while j < st.pending.len()
            invariant
                j <= st.pending@.len() == pv.len(),
                pv == st@.pending,
                lv == st@.labels,
                first_pass(lines(file@)) == Ok::<FirstPass, AsmError>(st@),
                resolve_from(pv, lv, 0) == match resolve_from(pv, lv, j as int) {
                    Ok(rest) => Ok::<Seq<Instruction>, AsmError>(out@ + rest),
                    Err(e) => Err(e),
                },
            decreases st.pending@.len() - j,
        {
            assert(pv[j as int] == st.pending@[j as int]@);
            let ins = match &st.pending[j] {
                Pending::Ready(ins) => *ins,
                Pending::Jump(b, n, line) => match find_label(&st.labels, n) {
                    Some(t) => b.to(t),
                    None => {
                        return Err(AsmError { line: *line, kind: ErrorKind::UndefinedLabel });
                    },
                },
            };
            let ghost before = out@;
            out.push(ins);
            proof {
                match resolve_from(pv, lv, j + 1) {
                    Ok(rest) => {
                        assert(before + (seq![ins] + rest) =~= out@ + rest);
                    },
                    Err(e) => {},
                }
            }
            j += 1;
        }
        assert(out@ + Seq::<Instruction>::empty() =~= out@);
        Ok(Assembly { reg_inits: st.reg_inits, mem_inits: st.mem_inits, instructions: out })
    }
}

/// The lines of a prefix of `s`, but for its last, are lines of `s`.
proof fn lemma_lines_prefix(s: Seq<char>, n: int)
    requires
        0 <= n <= s.len(),
    ensures
        lines(s.subrange(0, n)).len() <= lines(s).len(),
        forall|k: int|
            0 <= k < lines(s.subrange(0, n)).len() - 1 ==> #[trigger] lines(s.subrange(0, n))[k]
                == lines(s)[k],
    decreases s.len(),
{
    if n == s.len() {
        assert(s.subrange(0, n) =~= s);
    } else {
        let t = s.drop_last();
        assert(t.subrange(0, n) =~= s.subrange(0, n));
        lemma_lines_prefix(t, n);
        lemma_lines_len(t);
    }
}

/// The text of line `line` (from 1) of `file`, as a diagnostic shows it; empty past the end.
pub fn source_line(file: &str, line: usize) -> (r: Vec<char>)
    ensures
        1 <= line <= lines(file@).len() ==> r@ == lines(file@)[line - 1],
        !(1 <= line <= lines(file@).len()) ==> r@.len() == 0,
{
    let src = chars_of(file);
    let mut cur: Vec<char> = Vec::new();
    let mut idx: usize = 0;
    let mut i: usize = 0;
    assert(src@.subrange(0, 0) =~= Seq::<char>::empty());
    while i < src.len()
        invariant
            i <= src@.len(),
            src@ == file@,
            lines(src@.subrange(0, i as int)).len() == idx + 1,
            cur@ == lines(src@.subrange(0, i as int)).last(),
            idx <= i,
            line == 0 || line >= idx + 1,
        decreases src@.len() - i,
    {
        let c = src[i];
        let ghost pre = lines(src@.subrange(0, i as int));
        proof {
            lemma_lines_step(src@, i as int);
            lemma_lines_len(src@.subrange(0, i as int));
            lemma_lines_prefix(src@, i + 1);
        }
        if c == '\n' {
            if idx + 1 == line {
                assert(lines(src@.subrange(0, i + 1)) == pre.push(Seq::empty()));
                assert(lines(src@.subrange(0, i + 1))[idx as int] == cur@);
                assert(lines(src@.subrange(0, i + 1))[idx as int] == lines(src@)[idx as int]);
                return cur;
            }
            cur = Vec::new();
            idx += 1;
        } else {
            cur.push(c);
        }
        i += 1;
    }
    assert(src@.subrange(0, src@.len() as int) =~= src@);
    if line > 0 && idx == line - 1 {
        cur
    } else {
        proof {
            lemma_lines_len(src@);
        }
        Vec::new()
    }
}

/// Assembly is a function of the source text: equal sources give equal results.
pub proof fn lemma_assemble_deterministic(a: Seq<char>, b: Seq<char>)
    requires
        a == b,
    ensures
        assemble_spec(a) == assemble_spec(b),
{
}

proof fn lemma_faulty_line_fails_pass(ls: Seq<Seq<char>>, i: int)
    requires
        0 <= i < ls.len(),
        classify(ls[i]) is Fail,
    ensures
        first_pass(ls) is Err,
    decreases ls.len(),
{
    if i < ls.len() - 1 {
        assert(ls.drop_last()[i] == ls[i]);
        lemma_faulty_line_fails_pass(ls.drop_last(), i);
    }
}

proof fn lemma_undefined_label_fails_resolve(
    pending: Seq<Pend>,
    labels: Seq<(Seq<char>, i64)>,
    i: int,
    j: int,
)
    requires
        0 <= j <= i < pending.len(),
        pending[i] is Jump,
        lookup(labels, pending[i]->Jump_1) is None,
    ensures
        resolve_from(pending, labels, j) is Err,
    decreases i - j,
{
    if j < i {
        lemma_undefined_label_fails_resolve(pending, labels, i, j + 1);
    }
}

proof fn lemma_lookup_push(labels: Seq<(Seq<char>, i64)>, e: (Seq<char>, i64), n: Seq<char>, i: int)
    requires
        0 <= i <= labels.len(),
        lookup_from(labels, n, i) is Some,
    ensures
        lookup_from(labels.push(e), n, i) is Some,
    decreases labels.len() - i,
{
    if labels[i].0 != n {
        lemma_lookup_push(labels, e, n, i + 1);
    }
}

proof fn lemma_lookup_found(labels: Seq<(Seq<char>, i64)>, n: Seq<char>, i: int, k: int)
    requires
        0 <= i <= k < labels.len(),
        labels[k].0 == n,
    ensures
        lookup_from(labels, n, i) is Some,
    decreases k - i,
{
    if labels[i].0 != n {
        lemma_lookup_found(labels, n, i + 1, k);
    }
}

/// Once the first pass has bound `n`, it stays bound or the pass fails.
proof fn lemma_label_stays(ls: Seq<Seq<char>>, i: int, n: Seq<char>)
    requires
        0 <= i < ls.len(),
        classify(ls[i]) == Stmt::Label(n),
    ensures
        match first_pass(ls) {
            Ok(p) => lookup(p.labels, n) is Some,
            Err(_) => true,
        },
    decreases ls.len(),
{
    let k = ls.len() - 1;
    if i < k {
        assert(ls.drop_last()[i] == ls[i]);
        lemma_label_stays(ls.drop_last(), i, n);
        match first_pass(ls.drop_last()) {
            Ok(p) => {
                match classify(ls.last()) {
                    Stmt::Label(m) => {
                        if lookup(p.labels, m) is None {
                            lemma_lookup_push(p.labels, (m, (p.pending.len() - 1) as i64), n, 0);
                        }
                    },
                    _ => {},
                }
            },
            Err(_) => {},
        }
    } else {
        match first_pass(ls.drop_last()) {
            Ok(p) => {
                if lookup(p.labels, n) is None {
                    let q = p.labels.push((n, (p.pending.len() - 1) as i64));
                    lemma_lookup_found(q, n, 0, q.len() - 1);
                }
            },
            Err(_) => {},
        }
    }
}

proof fn lemma_duplicate_label_fails_pass(ls: Seq<Seq<char>>, i: int, j: int, n: Seq<char>)
    requires
        0 <= i < j < ls.len(),
        classify(ls[i]) == Stmt::Label(n),
        classify(ls[j]) == Stmt::Label(n),
    ensures
        first_pass(ls) is Err,
    decreases ls.len(),
{
    if j < ls.len() - 1 {
        assert(ls.drop_last()[i] == ls[i]);
        assert(ls.drop_last()[j] == ls[j]);
        lemma_duplicate_label_fails_pass(ls.drop_last(), i, j, n);
    } else {
        assert(ls.drop_last()[i] == ls[i]);
        lemma_label_stays(ls.drop_last(), i, n);
    }
}

/// A line that breaks a rule of the grammar (no `;`, wrong arity, ...) makes the whole
/// assembly fail.
pub proof fn lemma_faulty_line_aborts(src: Seq<char>, i: int)
    requires
        0 <= i < lines(src).len(),
        classify(lines(src)[i]) is Fail,
    ensures
        assemble_spec(src) is Err,
{
    lemma_faulty_line_fails_pass(lines(src), i);
}

/// Declaring a label twice makes the whole assembly fail.
pub proof fn lemma_duplicate_label_aborts(src: Seq<char>, i: int, j: int, n: Seq<char>)
    requires
        0 <= i < j < lines(src).len(),
        classify(lines(src)[i]) == Stmt::Label(n),
        classify(lines(src)[j]) == Stmt::Label(n),
    ensures
        assemble_spec(src) is Err,
{
    lemma_duplicate_label_fails_pass(lines(src), i, j, n);
}

/// A branch to a label that the source never declares makes the whole assembly fail.
pub proof fn lemma_undefined_label_aborts(src: Seq<char>, i: int)
    requires
        first_pass(lines(src)) is Ok,
        0 <= i < first_pass(lines(src))->Ok_0.pending.len(),
        first_pass(lines(src))->Ok_0.pending[i] is Jump,
        lookup(
            first_pass(lines(src))->Ok_0.labels,
            first_pass(lines(src))->Ok_0.pending[i]->Jump_1,
        ) is None,
    ensures
        assemble_spec(src) is Err,
{
    let p = first_pass(lines(src))->Ok_0;
    lemma_undefined_label_fails_resolve(p.pending, p.labels, i, 0);
}

/// A blank or comment-only line leaves the first pass as it was.
pub proof fn lemma_blank_line_ignored(ls: Seq<Seq<char>>, blank: Seq<char>)
    requires
        trim(strip_comment(blank)).len() == 0,
    ensures
        first_pass(ls.push(blank)) == first_pass(ls),
{
    assert(ls.push(blank).drop_last() =~= ls);
}

proof fn lemma_find_first(s: Seq<char>, c: char, i: int, k: int)
    requires
        0 <= i <= k < s.len(),
        s[k] == c,
        forall|j: int| i <= j < k ==> s[j] != c,
    ensures
        find_from(s, c, i) == k,
    decreases k - i,
{
    if i < k {
        lemma_find_first(s, c, i + 1, k);
    }
}

/// A comment after the code of a line changes nothing that the line says.
pub proof fn lemma_comment_ignored(code: Seq<char>, comment: Seq<char>)
    requires
        !code.contains('#'),
    ensures
        classify(code + seq!['#'] + comment) == classify(code),
{
    let line = code + seq!['#'] + comment;
    assert forall|j: int| 0 <= j < code.len() implies line[j] != '#' by {
        assert(line[j] == code[j]);
        if code[j] == '#' {
            assert(code.contains('#'));
        }
    }
    assert(line[code.len() as int] == '#');
    lemma_find_first(line, '#', 0, code.len() as int);
    assert(line.subrange(0, code.len() as int) =~= code);
    assert(find(code, '#') == -1) by {
        crate::text::lemma_find_from_range(code, '#', 0);
        if find(code, '#') != -1 {
            assert(code.contains('#'));
        }
    }
    assert(strip_comment(code) == code);
}

proof fn lemma_digit_upper(c: char)
    ensures
        digit_of(c, 16) == digit_of(crate::text::upper(c), 16),
{
    if 'a' <= c && c <= 'z' {
        let u = crate::text::upper(c);
        assert(u as u32 == c as u32 - 32);
    }
}

/// Mnemonics and register operands read the same in either case.
pub proof fn lemma_case_insensitive(a: Seq<char>, b: Seq<char>)
    requires
        upper_word(a) == upper_word(b),
    ensures
        mnemonic_of(upper_word(a)) == mnemonic_of(upper_word(b)),
        register_of(a) == register_of(b),
{
    assert(upper_word(a).len() == a.len());
    assert(upper_word(b).len() == b.len());
    if a.len() == 1 {
        assert(upper_word(a)[0] == crate::text::upper(a[0]));
        assert(upper_word(b)[0] == crate::text::upper(b[0]));
        lemma_digit_upper(a[0]);
        lemma_digit_upper(b[0]);
    }
}

pub open spec fn ready_ok(ins: Instruction) -> bool {
    !(ins is GO || ins is BIN || ins is BIZ) && instr_ok(ins, 0)
}

/// What the first pass gathers is in range: register operands and initialized registers
/// 0 to 15, labels from -1 to the last pending instruction.
pub open spec fn pass_ok(p: FirstPass) -> bool {
    &&& inits_ok(p.reg_inits)
    &&& forall|k: int| 0 <= k < p.pending.len() ==> (#[trigger] p.pending[k] is Ready ==> ready_ok(
        p.pending[k]->Ready_0,
    ))
    &&& forall|k: int|
        0 <= k < p.labels.len() ==> -1 <= #[trigger] p.labels[k].1 < p.pending.len()
}

proof fn lemma_register_of_ok(s: Seq<char>)
    ensures
        register_of(s) matches Some(r) ==> reg_ok(r),
{
}

proof fn lemma_classify_ok(line: Seq<char>)
    ensures
        classify(line) matches Stmt::Op(i) ==> ready_ok(i),
        classify(line) matches Stmt::RegInit(r, _) ==> reg_ok(r),
{
    let code = trim(strip_comment(line));
    let k = find(code, ';');
    if code.len() > 0 && k >= 0 {
        let c = code.subrange(0, k);
        let m = find(c, ':');
        if m >= 0 {
            let loc = trim(c.subrange(0, m));
            if loc.len() == 1 && (loc[0] as u32) < 0x80 {
                let ds = if loc[0] == '-' || loc[0] == '+' {
                    loc.drop_first()
                } else {
                    loc
                };
                if ds.len() > 0 {
                    assert(ds == loc);
                    assert(ds.drop_last().len() == 0);
                    assert(digits_value(ds.drop_last(), 16) == 0);
                    assert(ds.last() == loc[0]);
                    assert(digits_value(ds, 16) == digit_of(loc[0], 16));
                }
            }
        } else {
            let t = trim(c);
            let sp = find(t, ' ');
            let rest = if sp >= 0 {
                t.subrange(sp + 1, t.len() as int)
            } else {
                Seq::empty()
            };
            let args = args_spec(rest);
            if args.len() >= 1 {
                lemma_register_of_ok(args[0]);
            }
            if args.len() >= 2 {
                lemma_register_of_ok(args[1]);
            }
        }
    }
}

proof fn lemma_first_pass_ok(ls: Seq<Seq<char>>)
    requires
        ls.len() < 0x7fff_ffff_ffff_ffff,
    ensures
        first_pass(ls) matches Ok(p) ==> pass_ok(p) && p.pending.len() <= ls.len(),
    decreases ls.len(),
{
    if ls.len() > 0 {
        lemma_first_pass_ok(ls.drop_last());
        lemma_classify_ok(ls.last());
        match first_pass(ls.drop_last()) {
            Ok(p) => {
                match apply(p, classify(ls.last()), (ls.len() - 1) as nat) {
                    Ok(q) => {
                        assert(pass_ok(q)) by {
                            assert forall|k: int| 0 <= k < q.pending.len() implies (
                            #[trigger] q.pending[k] is Ready ==> ready_ok(q.pending[k]->Ready_0)) by {
                                if k < p.pending.len() {
                                    assert(q.pending[k] == p.pending[k]);
                                }
                            }
                            assert forall|k: int| 0 <= k < q.reg_inits.len() implies reg_ok(
                                #[trigger] q.reg_inits[k].0,
                            ) by {
                                if k < p.reg_inits.len() {
                                    assert(q.reg_inits[k] == p.reg_inits[k]);
                                }
                            }
                            assert forall|k: int| 0 <= k < q.labels.len() implies -1
                                <= #[trigger] q.labels[k].1 < q.pending.len() by {
                                if k < p.labels.len() {
                                    assert(q.labels[k] == p.labels[k]);
                                }
                            }
                        }
                    },
                    Err(_) => {},
                }
            },
            Err(_) => {},
        }
    }
}

proof fn lemma_lookup_value(labels: Seq<(Seq<char>, i64)>, n: Seq<char>, i: int, lo: int, hi: int)
    requires
        0 <= i,
        forall|k: int| 0 <= k < labels.len() ==> lo <= #[trigger] labels[k].1 < hi,
    ensures
        lookup_from(labels, n, i) matches Some(v) ==> lo <= v < hi,
    decreases labels.len() - i,
{
    if i < labels.len() && labels[i].0 != n {
        lemma_lookup_value(labels, n, i + 1, lo, hi);
    }
}

proof fn lemma_resolve_ok(p: FirstPass, j: int)
    requires
        pass_ok(p),
        0 <= j <= p.pending.len(),
    ensures
        resolve_from(p.pending, p.labels, j) matches Ok(rest) ==> rest.len() == p.pending.len() - j
            && forall|k: int| 0 <= k < rest.len() ==> instr_ok(#[trigger] rest[k], p.pending.len() as int),
    decreases p.pending.len() - j,
{
    if j < p.pending.len() {
        lemma_resolve_ok(p, j + 1);
        lemma_lookup_value(p.labels, p.pending[j]->Jump_1, 0, -1, p.pending.len() as int);
        match resolve_from(p.pending, p.labels, j) {
            Ok(rest) => {
                let tail = resolve_from(p.pending, p.labels, j + 1)->Ok_0;
                assert(rest == seq![rest[0]] + tail);
                assert(instr_ok(rest[0], p.pending.len() as int)) by {
                    if p.pending[j] is Ready {
                        assert(ready_ok(p.pending[j]->Ready_0));
                    }
                }
                assert forall|k: int| 0 <= k < rest.len() implies instr_ok(
                    #[trigger] rest[k],
                    p.pending.len() as int,
                ) by {
                    if k > 0 {
                        assert(rest[k] == tail[k - 1]);
                    }
                }
            },
            Err(_) => {},
        }
    }
}

/// What assembly gives is ready to run: initialized registers and register operands are 0
/// to 15, and each branch target lies from -1 up to the last instruction.
pub proof fn lemma_assembled_code_ok(src: Seq<char>)
    requires
        assemble_spec(src) is Ok,
        src.len() < 0x7fff_ffff_ffff_fffe,
    ensures
        ({
            let a = assemble_spec(src)->Ok_0;
            &&& inits_ok(a.reg_inits)
            &&& forall|k: int|
                0 <= k < a.instructions.len() ==> instr_ok(
                    #[trigger] a.instructions[k],
                    a.instructions.len() as int,
                )
        }),
{
    lemma_lines_len(src);
    lemma_first_pass_ok(lines(src));
    let p = first_pass(lines(src))->Ok_0;
    lemma_resolve_ok(p, 0);
}

proof fn lemma_case_args(a: Seq<char>, b: Seq<char>, i: int)
    requires
        same_but_case(a, b),
    ensures
        args_from(a, i).len() == args_from(b, i).len(),
        forall|k: int|
            0 <= k < args_from(a, i).len() ==> same_but_case(
                #[trigger] args_from(a, i)[k],
                args_from(b, i)[k],
            ),
    decreases a.len() - i,
{
    if 0 <= i <= a.len() {
        crate::text::lemma_case_find(a, b, ',', i);
        let j = find_from(a, ',', i);
        let found = i <= j < a.len();
        let end = if found {
            j
        } else {
            a.len() as int
        };
        crate::text::lemma_case_subrange(a, b, i, end);
        crate::text::lemma_case_trim(a.subrange(i, end), b.subrange(i, end));
        let pa = trim(a.subrange(i, end));
        let pb = trim(b.subrange(i, end));
        if found {
            lemma_case_args(a, b, j + 1);
        }
        let ra = if found {
            args_from(a, j + 1)
        } else {
            Seq::empty()
        };
        let rb = if found {
            args_from(b, j + 1)
        } else {
            Seq::empty()
        };
        if pa.len() != 0 {
            assert(args_from(a, i) == seq![pa] + ra);
            assert(args_from(b, i) == seq![pb] + rb);
            assert forall|k: int| 0 <= k < args_from(a, i).len() implies same_but_case(
                #[trigger] args_from(a, i)[k],
                args_from(b, i)[k],
            ) by {
                if k > 0 {
                    assert(args_from(a, i)[k] == ra[k - 1]);
                    assert(args_from(b, i)[k] == rb[k - 1]);
                }
            }
        }
    }
}

proof fn lemma_case_register(a: Seq<char>, b: Seq<char>)
    requires
        same_but_case(a, b),
    ensures
        register_of(a) == register_of(b),
{
    crate::text::lemma_case_upper_word(a, b);
    lemma_case_insensitive(a, b);
}

proof fn lemma_case_instruction(a: Seq<char>, b: Seq<char>)
    requires
        same_but_case(a, b),
        instruction_spec(a) is Op,
    ensures
        instruction_spec(b) == instruction_spec(a),
{
    crate::text::lemma_case_find(a, b, ' ', 0);
    let sp = find(a, ' ');
    crate::text::lemma_find_from_range(a, ' ', 0);
    if sp >= 0 {
        crate::text::lemma_case_subrange(a, b, 0, sp);
        crate::text::lemma_case_subrange(a, b, sp + 1, a.len() as int);
        crate::text::lemma_case_upper_word(a.subrange(0, sp), b.subrange(0, sp));
        let ra = a.subrange(sp + 1, a.len() as int);
        let rb = b.subrange(sp + 1, b.len() as int);
        lemma_case_args(ra, rb, 0);
        let xa = args_spec(ra);
        let xb = args_spec(rb);
        if xa.len() >= 1 {
            lemma_case_register(xa[0], xb[0]);
        }
        if xa.len() >= 2 {
            lemma_case_register(xa[1], xb[1]);
        }
    } else {
        crate::text::lemma_case_upper_word(a, b);
        assert(args_spec(Seq::<char>::empty()) == Seq::<Seq<char>>::empty());
    }
}

/// An instruction line reads the same whatever the ASCII case of its letters.
pub proof fn lemma_instruction_case_insensitive(a: Seq<char>, b: Seq<char>)
    requires
        same_but_case(a, b),
        classify(a) is Op,
    ensures
        classify(b) == classify(a),
{
    crate::text::lemma_case_find(a, b, '#', 0);
    crate::text::lemma_find_from_range(a, '#', 0);
    let h = find(a, '#');
    let sa = strip_comment(a);
    let sb = strip_comment(b);
    if h >= 0 {
        crate::text::lemma_case_subrange(a, b, 0, h);
    }
    crate::text::lemma_case_trim(sa, sb);
    let ca = trim(sa);
    let cb = trim(sb);
    crate::text::lemma_case_find(ca, cb, ';', 0);
    crate::text::lemma_find_from_range(ca, ';', 0);
    let k = find(ca, ';');
    crate::text::lemma_case_subrange(ca, cb, k + 1, ca.len() as int);
    crate::text::lemma_case_trim(
        ca.subrange(k + 1, ca.len() as int),
        cb.subrange(k + 1, cb.len() as int),
    );
    crate::text::lemma_case_subrange(ca, cb, 0, k);
    let ta = ca.subrange(0, k);
    let tb = cb.subrange(0, k);
    crate::text::lemma_case_find(ta, tb, ':', 0);
    crate::text::lemma_case_trim(ta, tb);
    lemma_case_instruction(trim(ta), trim(tb));
}

} // verus!
