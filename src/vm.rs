//! The register machine that runs assembled instructions.
use std::collections::HashMap;
use vstd::prelude::*;

use crate::assembler::Instruction;

verus! {

broadcast use vstd::std_specs::hash::group_hash_axioms;

/// Every stored value is kept to this many bits: 32, all ones.
pub const INT_MAX: i64 = 0xffffffff;

/// The sign bit of a stored value.
pub const SIGN_BIT: i64 = 0x80000000;

/// The state of a machine, as mathematics.
pub struct Machine {
    pub regs: Seq<i64>,
    pub mem: Map<i64, i64>,
    pub mar: i64,
    pub mbr: i64,
    pub n: bool,
    pub z: bool,
}

pub open spec fn value_ok(v: i64) -> bool {
    0 <= v <= INT_MAX
}

/// Register 0 (the program counter) may stand one past the width after the last step.
pub open spec fn wf(m: Machine) -> bool {
    &&& m.regs.len() == 16
    &&& forall|i: int| 1 <= i < 16 ==> value_ok(#[trigger] m.regs[i])
    &&& 0 <= m.regs[0] <= INT_MAX + 1
    &&& value_ok(m.mar)
    &&& value_ok(m.mbr)
    &&& forall|k: i64| #[trigger] m.mem.contains_key(k) ==> value_ok(m.mem[k])
}

pub open spec fn reg_ok(r: i64) -> bool {
    0 <= r < 16
}

/// Operands in range: registers 0 to 15, targets from -1 to the last address.
pub open spec fn instr_ok(ins: Instruction, len: int) -> bool {
    match ins {
        Instruction::SA(x) | Instruction::RB(x) | Instruction::SB(x) | Instruction::SF(x) => reg_ok(
            x,
        ),
        Instruction::GO(t) | Instruction::BIN(t) | Instruction::BIZ(t) => -1 <= t < len,
        Instruction::ADD(a, b) | Instruction::AND(a, b) | Instruction::MV(a, b) | Instruction::NOT(
            a,
            b,
        ) | Instruction::RS(a, b) | Instruction::LS(a, b) | Instruction::SW(a, b) => reg_ok(a)
            && reg_ok(b),
        _ => true,
    }
}

pub open spec fn code_ok(code: Seq<Instruction>) -> bool {
    &&& code.len() <= INT_MAX
    &&& forall|i: int| 0 <= i < code.len() ==> instr_ok(#[trigger] code[i], code.len() as int)
}

pub open spec fn set_reg(m: Machine, r: i64, v: i64) -> Machine {
    Machine { regs: m.regs.update(r as int, v), ..m }
}

/// What one instruction does, before the program counter moves on.
pub open spec fn exec_spec(m: Machine, op: Instruction) -> Machine {
    let r = m.regs;
    match op {
        Instruction::SA(x) => Machine { mar: r[x as int], ..m },
        Instruction::RB(x) => set_reg(m, x, m.mar),
        Instruction::RD => Machine {
            mbr: if m.mem.contains_key(m.mar) {
                m.mem[m.mar]
            } else {
                0
            },
            ..m
        },
        Instruction::WR => Machine { mem: m.mem.insert(m.mar, m.mbr), ..m },
        Instruction::SB(x) => Machine { mbr: r[x as int], ..m },
        Instruction::SF(x) => Machine { z: r[x as int] == 0, n: r[x as int] & SIGN_BIT == 0, ..m },
        Instruction::GO(t) => set_reg(m, 0, t),
        Instruction::BIN(t) => if m.n {
            set_reg(m, 0, t)
        } else {
            m
        },
        Instruction::BIZ(t) => if m.z {
            set_reg(m, 0, t)
        } else {
            m
        },
        Instruction::ADD(a, b) => set_reg(m, a, ((r[a as int] + r[b as int]) as i64) & INT_MAX),
        Instruction::AND(a, b) => set_reg(m, a, (r[a as int] & r[b as int]) & INT_MAX),
        Instruction::MV(a, b) => set_reg(m, a, r[b as int]),
        Instruction::NOT(a, b) => set_reg(m, a, (!r[b as int]) & INT_MAX),
        Instruction::LS(a, b) => set_reg(m, a, (r[b as int] << 1u64) & INT_MAX),
        Instruction::RS(a, b) => set_reg(m, a, (r[b as int] >> 1u64) & INT_MAX),
        Instruction::SW(a, b) => Machine {
            mar: r[a as int],
            mbr: r[b as int],
            mem: m.mem.insert(r[a as int], r[b as int]),
            ..m
        },
        Instruction::PRINT => m,
    }
}

/// One instruction, then the program counter moves on by one.
pub open spec fn step_spec(m: Machine, op: Instruction) -> Machine {
    let e = exec_spec(m, op);
    set_reg(e, 0, (e.regs[0] + 1) as i64)
}

pub open spec fn halted(m: Machine, code: Seq<Instruction>) -> bool {
    !(0 <= m.regs[0] < code.len())
}

/// At most `fuel` steps, stopping once the program counter leaves the code.
pub open spec fn run_spec(m: Machine, code: Seq<Instruction>, fuel: nat) -> Machine
    decreases fuel,
{
    if fuel == 0 || halted(m, code) {
        m
    } else {
        run_spec(step_spec(m, code[m.regs[0] as int]), code, (fuel - 1) as nat)
    }
}

/// Registers after the initializers, in order, each value kept to the width.
pub open spec fn init_regs(inits: Seq<(i64, i64)>) -> Seq<i64>
    decreases inits.len(),
{
    if inits.len() == 0 {
        Seq::new(16, |i: int| 0i64)
    } else {
        init_regs(inits.drop_last()).update(inits.last().0 as int, inits.last().1 & INT_MAX)
    }
}

pub open spec fn init_mem(inits: Seq<(i64, i64)>) -> Map<i64, i64>
    decreases inits.len(),
{
    if inits.len() == 0 {
        Map::empty()
    } else {
        init_mem(inits.drop_last()).insert(inits.last().0, inits.last().1 & INT_MAX)
    }
}

/// A fresh machine: registers 0, 5, 6, 7 are 0, 0, 1 and all ones whatever the initializers say.
pub open spec fn new_spec(reg_inits: Seq<(i64, i64)>, mem_inits: Seq<(i64, i64)>) -> Machine {
    Machine {
        regs: init_regs(reg_inits).update(0, 0).update(5, 0).update(6, 1).update(7, INT_MAX),
        mem: init_mem(mem_inits),
        mar: 0,
        mbr: 0,
        n: false,
        z: false,
    }
}

pub open spec fn inits_ok(reg_inits: Seq<(i64, i64)>) -> bool {
    forall|i: int| 0 <= i < reg_inits.len() ==> reg_ok(#[trigger] reg_inits[i].0)
}

/// Signed reading of a stored value: the top bit of 32 counts negative.
pub open spec fn signed_value(v: i64) -> int {
    if v < SIGN_BIT {
        v as int
    } else {
        v - 0x1_0000_0000
    }
}

pub proof fn lemma_mask(v: i64)
    ensures
        value_ok(v & INT_MAX),
        0 <= v <= INT_MAX ==> v & INT_MAX == v,
{
    assert(0 <= v & 0xffffffffi64 <= 0xffffffffi64) by (bit_vector);
    assert(0 <= v <= 0xffffffffi64 ==> v & 0xffffffffi64 == v) by (bit_vector);
}

/// The signed value of a stored value, for display.
pub fn get_int(reg_val: i64) -> (r: i64)
    requires
        value_ok(reg_val),
    ensures
        r == signed_value(reg_val),
{
    if reg_val & (!(INT_MAX >> 1) & INT_MAX) == 0 {
        assert(0 <= reg_val <= 0xffffffffi64 && reg_val & (!(0xffffffffi64 >> 1u64)
            & 0xffffffffi64) == 0 ==> reg_val < 0x80000000i64) by (bit_vector);
        reg_val
    } else {
        assert(0 <= reg_val <= 0xffffffffi64 && reg_val & (!(0xffffffffi64 >> 1u64)
            & 0xffffffffi64) != 0 ==> reg_val >= 0x80000000i64 && ((-reg_val) as i64) & 0xffffffffi64
            == 0x1_0000_0000i64 - reg_val) by (bit_vector);
        -((-reg_val) & INT_MAX)
    }
}

/// Sixteen registers (register 0 is the program counter), a sparse memory whose untouched
/// addresses read 0, the memory address and buffer registers, and the flags N and Z.
#[derive(Debug)]
#[allow(non_snake_case)]
pub struct VM {
    pub registers: [i64; 16],
    pub memory: HashMap<i64, i64>,
    pub MAR: i64,
    pub MBR: i64,
    pub N: bool,
    pub Z: bool,
}

impl View for VM {
    type V = Machine;

    open spec fn view(&self) -> Machine {
        Machine {
            regs: self.registers@,
            mem: self.memory@,
            mar: self.MAR,
            mbr: self.MBR,
            n: self.N,
            z: self.Z,
        }
    }
}

#[allow(non_snake_case)]
impl VM {
    /// A machine with the initializers applied, registers first; then registers 0, 5, 6 and 7
    /// are set to 0, 0, 1 and all ones.
    pub fn new(reg_inits: Vec<(i64, i64)>, mem_inits: Vec<(i64, i64)>) -> (vm: VM)
        requires
            inits_ok(reg_inits@),
        ensures
            vm@ == new_spec(reg_inits@, mem_inits@),
            wf(vm@),
    {
        let mut vm = VM {
            registers: [0i64; 16],
            memory: HashMap::new(),
            MAR: 0,
            MBR: 0,
            N: false,
            Z: false,
        };
        assert(reg_inits@.subrange(0, 0).len() == 0);
        assert(vm.registers@ =~= init_regs(reg_inits@.subrange(0, 0)));
        let mut i: usize = 0;
        while i < reg_inits.len()
            invariant
                i <= reg_inits@.len(),
                inits_ok(reg_inits@),
                vm.registers@ == init_regs(reg_inits@.subrange(0, i as int)),
                vm.memory@ == Map::<i64, i64>::empty(),
                vm.MAR == 0 && vm.MBR == 0 && !vm.N && !vm.Z,
                forall|k: int| 0 <= k < 16 ==> value_ok(#[trigger] vm.registers@[k]),
            decreases reg_inits@.len() - i,
        {
            let (reg, val) = reg_inits[i];
            assert(reg_ok(reg_inits@[i as int].0));
            proof {
                lemma_mask(val);
            }
            vm.set_reg(reg, val);
            assert(reg_inits@.subrange(0, i + 1).drop_last() =~= reg_inits@.subrange(0, i as int));
            i += 1;
        }
        assert(reg_inits@.subrange(0, reg_inits@.len() as int) =~= reg_inits@);
        let ghost r0 = vm.registers@;
        assert(r0 == init_regs(reg_inits@));
        vm.registers[0] = 0;
        vm.registers[5] = 0;
        vm.registers[6] = 1;
        vm.registers[7] = INT_MAX;
        assert(vm.registers@ =~= r0.update(0, 0).update(5, 0).update(6, 1).update(7, INT_MAX));
        assert(mem_inits@.subrange(0, 0).len() == 0);
        assert(vm.memory@ =~= init_mem(mem_inits@.subrange(0, 0)));
        let mut j: usize = 0;
        while j < mem_inits.len()
            invariant
                j <= mem_inits@.len(),
                vm.memory@ == init_mem(mem_inits@.subrange(0, j as int)),
                vm.MAR == 0 && vm.MBR == 0 && !vm.N && !vm.Z,
                vm.registers@ == init_regs(reg_inits@).update(0, 0).update(5, 0).update(6, 1).update(
                    7,
                    INT_MAX,
                ),
                forall|k: int| 1 <= k < 16 ==> value_ok(#[trigger] vm.registers@[k]),
                vm.registers@[0] == 0,
                forall|k: i64| #[trigger] vm.memory@.contains_key(k) ==> value_ok(vm.memory@[k]),
            decreases mem_inits@.len() - j,
        {
            let (mem, val) = mem_inits[j];
            proof {
                lemma_mask(val);
            }
            vm.set_mem(mem, val);
            assert(mem_inits@.subrange(0, j + 1).drop_last() =~= mem_inits@.subrange(0, j as int));
            j += 1;
        }
        assert(mem_inits@.subrange(0, mem_inits@.len() as int) =~= mem_inits@);
        vm
    }

    fn set_reg(&mut self, reg: i64, val: i64)
        requires
            reg_ok(reg),
        ensures
            final(self)@ == set_reg(old(self)@, reg, val & INT_MAX),
    {
        self.registers[reg as usize] = val & INT_MAX;
    }

    fn set_mem(&mut self, mem: i64, val: i64)
        ensures
            final(self)@ == (Machine { mem: old(self)@.mem.insert(mem, val & INT_MAX), ..old(self)@ }),
    {
        self.memory.insert(mem, val & INT_MAX);
    }

    fn SA(&mut self, x: i64)
        requires
            reg_ok(x),
        ensures
            final(self)@ == exec_spec(old(self)@, Instruction::SA(x)),
    {
        self.MAR = self.registers[x as usize];
    }

    fn RB(&mut self, x: i64)
        requires
            reg_ok(x),
        ensures
            final(self)@ == exec_spec(old(self)@, Instruction::RB(x)),
    {
        self.registers[x as usize] = self.MAR;
    }

    fn RD(&mut self)
        ensures
            final(self)@ == exec_spec(old(self)@, Instruction::RD),
    {
        self.MBR = 0;
        match self.memory.get(&self.MAR) {
            Some(a) => {
                self.MBR = *a;
            },
            None => {},
        }
    }

    fn WR(&mut self)
        ensures
            final(self)@ == exec_spec(old(self)@, Instruction::WR),
    {
        self.memory.insert(self.MAR, self.MBR);
    }

    fn SB(&mut self, x: i64)
        requires
            reg_ok(x),
        ensures
            final(self)@ == exec_spec(old(self)@, Instruction::SB(x)),
    {
        self.MBR = self.registers[x as usize];
    }

    fn SF(&mut self, x: i64)
        requires
            reg_ok(x),
        ensures
            final(self)@ == exec_spec(old(self)@, Instruction::SF(x)),
    {
        self.Z = self.registers[x as usize] == 0;
        self.N = (self.registers[x as usize] & SIGN_BIT) == 0;
    }

    fn GO(&mut self, i: i64)
        ensures
            final(self)@ == exec_spec(old(self)@, Instruction::GO(i)),
    {
        self.registers[0] = i;
    }

    fn BIN(&mut self, i: i64)
        ensures
            final(self)@ == exec_spec(old(self)@, Instruction::BIN(i)),
    {
        if self.N {
            self.registers[0] = i;
        }
    }

    fn BIZ(&mut self, i: i64)
        ensures
            final(self)@ == exec_spec(old(self)@, Instruction::BIZ(i)),
    {
        if self.Z {
            self.registers[0] = i;
        }
    }

    fn ADD(&mut self, a: i64, b: i64)
        requires
            reg_ok(a),
            reg_ok(b),
            value_ok(old(self).registers[a as int]) || a == 0,
            0 <= old(self).registers[a as int] <= INT_MAX + 1,
            0 <= old(self).registers[b as int] <= INT_MAX + 1,
        ensures
            final(self)@ == exec_spec(old(self)@, Instruction::ADD(a, b)),
    {
        self.registers[a as usize] = (self.registers[a as usize] + self.registers[b as usize])
            & INT_MAX;
    }

    fn AND(&mut self, a: i64, b: i64)
        requires
            reg_ok(a),
            reg_ok(b),
        ensures
            final(self)@ == exec_spec(old(self)@, Instruction::AND(a, b)),
    {
        self.registers[a as usize] = (self.registers[a as usize] & self.registers[b as usize])
            & INT_MAX;
    }

    fn MV(&mut self, a: i64, b: i64)
        requires
            reg_ok(a),
            reg_ok(b),
        ensures
            final(self)@ == exec_spec(old(self)@, Instruction::MV(a, b)),
    {
        self.registers[a as usize] = self.registers[b as usize];
    }

    fn NOT(&mut self, a: i64, b: i64)
        requires
            reg_ok(a),
            reg_ok(b),
        ensures
            final(self)@ == exec_spec(old(self)@, Instruction::NOT(a, b)),
    {
        self.registers[a as usize] = (!self.registers[b as usize]) & INT_MAX;
    }

    fn LS(&mut self, a: i64, b: i64)
        requires
            reg_ok(a),
            reg_ok(b),
            0 <= old(self).registers[b as int] <= INT_MAX + 1,
        ensures
            final(self)@ == exec_spec(old(self)@, Instruction::LS(a, b)),
    {
        self.registers[a as usize] = (self.registers[b as usize] << 1u64) & INT_MAX;
    }

    fn RS(&mut self, a: i64, b: i64)
        requires
            reg_ok(a),
            reg_ok(b),
        ensures
            final(self)@ == exec_spec(old(self)@, Instruction::RS(a, b)),
    {
        self.registers[a as usize] = (self.registers[b as usize] >> 1u64) & INT_MAX;
    }

    fn SW(&mut self, a: i64, b: i64)
        requires
            reg_ok(a),
            reg_ok(b),
        ensures
            final(self)@ == exec_spec(old(self)@, Instruction::SW(a, b)),
    {
        self.MAR = self.registers[a as usize];
        self.MBR = self.registers[b as usize];
        self.memory.insert(self.MAR, self.MBR);
    }

    fn run_op(&mut self, op: &Instruction)
        requires
            wf(old(self)@),
            old(self).registers[0] <= INT_MAX,
            instr_ok(*op, INT_MAX + 1),
        ensures
            final(self)@ == exec_spec(old(self)@, *op),
    {
        match op {
            Instruction::ADD(a, b) => self.ADD(*a, *b),
            Instruction::AND(a, b) => self.AND(*a, *b),
            Instruction::BIN(a) => self.BIN(*a),
            Instruction::BIZ(a) => self.BIZ(*a),
            Instruction::GO(a) => self.GO(*a),
            Instruction::LS(a, b) => self.LS(*a, *b),
            Instruction::MV(a, b) => self.MV(*a, *b),
            Instruction::NOT(a, b) => self.NOT(*a, *b),
            Instruction::RB(a) => self.RB(*a),
            Instruction::RD => self.RD(),
            Instruction::RS(a, b) => self.RS(*a, *b),
            Instruction::SW(a, b) => self.SW(*a, *b),
            Instruction::SA(a) => self.SA(*a),
            Instruction::SB(a) => self.SB(*a),
            Instruction::SF(a) => self.SF(*a),
            Instruction::WR => self.WR(),
            Instruction::PRINT => {},
        }
    }

    /// Whether the program counter stands outside `code`.
    pub fn is_halted(&self, code: &Vec<Instruction>) -> (r: bool)
        ensures
            r == halted(self@, code@),
    {
        let pc = self.registers[0];
        pc < 0 || (pc as u64) >= (code.len() as u64)
    }

    /// Runs the instruction at the program counter and moves the counter on by one. Returns
    /// whether that instruction was `PRINT`, whose output is the caller's to make.
    pub fn step(&mut self, code: &Vec<Instruction>) -> (printed: bool)
        requires
            wf(old(self)@),
            code_ok(code@),
            !halted(old(self)@, code@),
        ensures
            final(self)@ == step_spec(old(self)@, code@[old(self)@.regs[0] as int]),
            wf(final(self)@),
            printed == (code@[old(self)@.regs[0] as int] == Instruction::PRINT),
    {
        let op = &code[self.registers[0] as usize];
        assert(instr_ok(*op, code@.len() as int));
        proof {
            lemma_step_wf(self@, *op, code@.len() as int);
        }
        self.run_op(op);
        self.registers[0] = self.registers[0] + 1;
        match op {
            Instruction::PRINT => true,
            _ => false,
        }
    }

    /// Runs `code` from the current state until the program counter leaves it, stopping
    /// after `u64::MAX` steps at the latest.
    pub fn run_code(&mut self, code: &Vec<Instruction>)
        requires
            wf(old(self)@),
            code_ok(code@),
        ensures
            final(self)@ == run_spec(old(self)@, code@, u64::MAX as nat),
            wf(final(self)@),
    {
        let mut fuel: u64 = u64::MAX;
        while fuel > 0 && !self.is_halted(code)
            invariant
                wf(self@),
                code_ok(code@),
                run_spec(self@, code@, fuel as nat) == run_spec(old(self)@, code@, u64::MAX as nat),
            decreases fuel,
        {
            self.step(code);
            fuel -= 1;
        }
    }
}

/// Whether every operand of `code` is in range and `code` fits the width.
pub fn code_is_ok(code: &Vec<Instruction>) -> (r: bool)
    ensures
        r == code_ok(code@),
{
    let n = code.len();
    if n as u64 > INT_MAX as u64 {
        return false;
    }
    let len = n as i64;
    let mut i: usize = 0;
    while i < n
        invariant
            n == code@.len() <= INT_MAX,
            len == n,
            i <= n,
            forall|k: int| 0 <= k < i ==> instr_ok(#[trigger] code@[k], n as int),
        decreases n - i,
    {
        let ok = match code[i] {
            Instruction::SA(x) | Instruction::RB(x) | Instruction::SB(x) | Instruction::SF(x) => 0
                <= x && x < 16,
            Instruction::GO(t) | Instruction::BIN(t) | Instruction::BIZ(t) => -1 <= t && t < len,
            Instruction::ADD(a, b) | Instruction::AND(a, b) | Instruction::MV(a, b)
            | Instruction::NOT(a, b) | Instruction::RS(a, b) | Instruction::LS(a, b)
            | Instruction::SW(a, b) => 0 <= a && a < 16 && 0 <= b && b < 16,
            _ => true,
        };
        if !ok {
            return false;
        }
        i += 1;
    }
    true
}

/// One step keeps a machine well formed while the counter stands in code of at most
/// `INT_MAX` instructions.
pub proof fn lemma_step_wf(m: Machine, op: Instruction, len: int)
    requires
        wf(m),
        0 <= m.regs[0] < len <= INT_MAX,
        instr_ok(op, len),
    ensures
        wf(step_spec(m, op)),
        -1 <= exec_spec(m, op).regs[0] <= INT_MAX,
{
    let r = m.regs;
    match op {
        Instruction::ADD(a, b) => {
            lemma_mask((r[a as int] + r[b as int]) as i64);
        },
        Instruction::AND(a, b) => {
            lemma_mask(r[a as int] & r[b as int]);
        },
        Instruction::NOT(a, b) => {
            lemma_mask(!r[b as int]);
        },
        Instruction::LS(a, b) => {
            lemma_mask(r[b as int] << 1u64);
        },
        Instruction::RS(a, b) => {
            lemma_mask(r[b as int] >> 1u64);
        },
        _ => {},
    }
    let e = exec_spec(m, op);
    assert(forall|i: int| 1 <= i < 16 ==> value_ok(#[trigger] e.regs[i]));
    let s = step_spec(m, op);
    assert(forall|i: int| 1 <= i < 16 ==> s.regs[i] == e.regs[i]);
}

/// ADD, AND, NOT, LS and RS leave a result within the width, whatever the operands.
pub proof fn lemma_results_within_width(m: Machine, op: Instruction)
    requires
        wf(m),
        instr_ok(op, 0),
        op is ADD || op is AND || op is NOT || op is LS || op is RS,
    ensures
        ({
            let a = match op {
                Instruction::ADD(a, _) | Instruction::AND(a, _) | Instruction::NOT(a, _)
                | Instruction::LS(a, _) | Instruction::RS(a, _) => a,
                _ => 0,
            };
            value_ok(exec_spec(m, op).regs[a as int])
        }),
{
    let r = m.regs;
    match op {
        Instruction::ADD(a, b) => {
            lemma_mask((r[a as int] + r[b as int]) as i64);
        },
        Instruction::AND(a, b) => {
            lemma_mask(r[a as int] & r[b as int]);
        },
        Instruction::NOT(a, b) => {
            lemma_mask(!r[b as int]);
        },
        Instruction::LS(a, b) => {
            lemma_mask(r[b as int] << 1u64);
        },
        Instruction::RS(a, b) => {
            lemma_mask(r[b as int] >> 1u64);
        },
        _ => {},
    }
}

/// SF sets Z exactly when the value is 0, and N exactly when its sign bit is clear.
pub proof fn lemma_flags(m: Machine, x: i64)
    requires
        wf(m),
        reg_ok(x),
        value_ok(m.regs[x as int]),
    ensures
        exec_spec(m, Instruction::SF(x)).z == (m.regs[x as int] == 0),
        exec_spec(m, Instruction::SF(x)).n == (m.regs[x as int] < 0x8000_0000),
        exec_spec(m, Instruction::SF(x)).regs == m.regs,
{
    let v = m.regs[x as int];
    assert(0 <= v <= 0xffffffffi64 ==> ((v & 0x80000000i64) == 0 <==> v < 0x80000000i64))
        by (bit_vector);
}

} // verus!
