//! Interactive stepping: which state the stepper is in, and what each command does.
use std::collections::HashSet;
use vstd::prelude::*;

use crate::assembler::Instruction;
use crate::text::{chars_of, trim, trimmed};
use crate::vm::{halted, VM};

verus! {

broadcast use vstd::std_specs::hash::group_hash_axioms;

/// An operator command: `n` or nothing steps, `b` toggles a breakpoint at the current
/// address, `c` toggles continue-mode, `r` runs on without stopping, `q` quits.
#[derive(Clone, Copy, Debug, PartialEq, Eq, Structural)]
pub enum Command {
    Step,
    Breakpoint,
    Continue,
    Run,
    Quit,
    Invalid,
}

/// What the stepper does after a command.
#[derive(Clone, Copy, Debug, PartialEq, Eq, Structural)]
pub enum Reply {
    /// Execute the current instruction.
    Proceed,
    /// Ask for another command at the same address.
    Again,
    /// End the session without completing the program.
    Quit,
    /// The command was not understood; the session cannot go on.
    Invalid,
}

/// What the stepper does next at the current address.
#[derive(Clone, Copy, Debug, PartialEq, Eq, Structural)]
pub enum Poll {
    /// The program counter has left the code: the program completed.
    Completed,
    /// Show the machine and ask for a command.
    Prompt,
    /// Execute the current instruction without asking.
    Execute,
}

/// The stepper's state, as mathematics.
pub struct DebugState {
    pub breakpoints: Set<i64>,
    pub cont: bool,
    pub interactive: bool,
}

pub open spec fn lower(c: char) -> char {
    if 'A' <= c && c <= 'Z' {
        ((c as u8) + 32) as char
    } else {
        c
    }
}

/// The command that an input line gives: its first character, in either case.
pub open spec fn command_of(s: Seq<char>) -> Command {
    let t = trim(s);
    if t.len() == 0 {
        Command::Step
    } else {
        let c = lower(t[0]);
        if c == 'n' {
            Command::Step
        } else if c == 'b' {
            Command::Breakpoint
        } else if c == 'c' {
            Command::Continue
        } else if c == 'r' {
            Command::Run
        } else if c == 'q' {
            Command::Quit
        } else {
            Command::Invalid
        }
    }
}

/// Whether the stepper stops at address `pc` to ask the operator.
pub open spec fn prompts(d: DebugState, pc: i64) -> bool {
    d.interactive && (!d.cont || d.breakpoints.contains(pc))
}

pub open spec fn after(d: DebugState, cmd: Command, pc: i64) -> DebugState {
    match cmd {
        Command::Breakpoint => DebugState {
            breakpoints: if d.breakpoints.contains(pc) {
                d.breakpoints.remove(pc)
            } else {
                d.breakpoints.insert(pc)
            },
            ..d
        },
        Command::Continue => DebugState { cont: !d.cont, ..d },
        Command::Run => DebugState { interactive: false, ..d },
        _ => d,
    }
}

pub open spec fn reply_of(cmd: Command) -> Reply {
    match cmd {
        Command::Step | Command::Continue | Command::Run => Reply::Proceed,
        Command::Breakpoint => Reply::Again,
        Command::Quit => Reply::Quit,
        Command::Invalid => Reply::Invalid,
    }
}

/// Reads an operator's input line as a command.
pub fn parse_command(line: &str) -> (r: Command)
    ensures
        r == command_of(line@),
{
    let t = trimmed(&chars_of(line));
    if t.len() == 0 {
        return Command::Step;
    }
    let c0 = t[0];
    let c = if 'A' <= c0 && c0 <= 'Z' {
        ((c0 as u8) + 32) as char
    } else {
        c0
    };
    if c == 'n' {
        Command::Step
    } else if c == 'b' {
        Command::Breakpoint
    } else if c == 'c' {
        Command::Continue
    } else if c == 'r' {
        Command::Run
    } else if c == 'q' {
        Command::Quit
    } else {
        Command::Invalid
    }
}

/// One debug session: its breakpoints, whether it runs on to the next breakpoint, and
/// whether it still asks the operator at all.
#[derive(Debug)]
pub struct Debugger {
    pub breakpoints: HashSet<i64>,
    pub cont: bool,
    pub interactive: bool,
}

impl View for Debugger {
    type V = DebugState;

    open spec fn view(&self) -> DebugState {
        DebugState {
            breakpoints: self.breakpoints@,
            cont: self.cont,
            interactive: self.interactive,
        }
    }
}

impl Debugger {
    /// A session with no breakpoints that asks at every instruction.
    pub fn new() -> (d: Debugger)
        ensures
            d@ == (DebugState { breakpoints: Set::empty(), cont: false, interactive: true }),
    {
        Debugger { breakpoints: HashSet::new(), cont: false, interactive: true }
    }

    /// Whether a breakpoint is set at `pc`.
    pub fn on_breakpoint(&self, pc: i64) -> (r: bool)
        ensures
            r == self@.breakpoints.contains(pc),
    {
        self.breakpoints.contains(&pc)
    }

    /// Whether the session stops at `pc` to ask the operator.
    pub fn should_prompt(&self, pc: i64) -> (r: bool)
        ensures
            r == prompts(self@, pc),
    {
        self.interactive && (!self.cont || self.breakpoints.contains(&pc))
    }

    /// Applies an operator command given at address `pc`.
    pub fn command(&mut self, cmd: Command, pc: i64) -> (r: Reply)
        ensures
            final(self)@ == after(old(self)@, cmd, pc),
            r == reply_of(cmd),
    {
        match cmd {
            Command::Step => Reply::Proceed,
            Command::Breakpoint => {
                if self.breakpoints.contains(&pc) {
                    self.breakpoints.remove(&pc);
                } else {
                    self.breakpoints.insert(pc);
                }
                Reply::Again
            },
            Command::Continue => {
                self.cont = !self.cont;
                Reply::Proceed
            },
            Command::Run => {
                self.interactive = false;
                Reply::Proceed
            },
            Command::Quit => Reply::Quit,
            Command::Invalid => Reply::Invalid,
        }
    }

    /// What the session does next for `vm` running `code`.
    pub fn poll(&self, vm: &VM, code: &Vec<Instruction>) -> (r: Poll)
        ensures
            r == (if halted(vm@, code@) {
                Poll::Completed
            } else if prompts(self@, vm@.regs[0]) {
                Poll::Prompt
            } else {
                Poll::Execute
            }),
    {
        if vm.is_halted(code) {
            Poll::Completed
        } else if self.should_prompt(vm.registers[0]) {
            Poll::Prompt
        } else {
            Poll::Execute
        }
    }
}

/// With continue-mode switched on after one breakpoint was set at `k` in a fresh session,
/// the session stops exactly at `k`; `q` ends it without completion.
pub proof fn lemma_breakpoint_stops_continue(k: i64, pc: i64)
    ensures
        ({
            let d0 = DebugState { breakpoints: Set::empty(), cont: false, interactive: true };
            let d = after(after(d0, Command::Breakpoint, k), Command::Continue, pc);
            prompts(d, pc) <==> pc == k
        }),
        reply_of(Command::Quit) == Reply::Quit,
{
}

} // verus!
