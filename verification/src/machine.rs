//! The execution engine: a fixed 30,000-cell byte tape, a wrapping data
//! pointer, a program counter, and a fetch-decode-execute step over a
//! compiled command sequence.
//!
//! The engine performs no I/O of its own.  `step` surfaces an `Effect`
//! telling the caller what the current command needs from the outside —
//! nothing, a byte to emit, or a byte of input to be supplied through
//! `give_input` — and `run` drives the same machine against an in-memory
//! input, with a step budget in place of the caller's loop.

use vstd::prelude::*;

use crate::command::{brackets_paired, jnz_matched, jz_matched, wrap8, Command, SyntaxError};
use crate::compiler::{brackets_balanced, compile, compile_spec};

verus! {

/// The fixed number of cells on the memory tape.
pub const TAPE_LEN: usize = 30000;

/// A machine configuration as the specification sees it: the tape, the
/// data pointer, the program counter, the input not yet consumed, and the
/// output produced so far.
#[verifier::ext_equal]
pub ghost struct Config {
    pub mem: Seq<u8>,
    pub ptr: int,
    pub pc: int,
    pub inp: Seq<u8>,
    pub out: Seq<u8>,
}

/// Pointer movement: the sum taken modulo the tape length, with the
/// mathematically correct (never negative) remainder whatever the sign or
/// magnitude of the delta.
pub open spec fn wrap_ptr(p: int, d: int) -> int {
    (p + d) % (TAPE_LEN as int)
}

/// One fetch-decode-execute step on a configuration whose program counter
/// sits on a command.  Exhausted input reads as zero.
pub open spec fn step_config(cmds: Seq<Command>, c: Config) -> Config {
    match cmds[c.pc] {
        Command::ChangeByte(d) => Config {
            mem: c.mem.update(c.ptr, wrap8(c.mem[c.ptr] + d)),
            ptr: c.ptr,
            pc: c.pc + 1,
            inp: c.inp,
            out: c.out,
        },
        Command::ChangePointer(d) => Config {
            mem: c.mem,
            ptr: wrap_ptr(c.ptr, d as int),
            pc: c.pc + 1,
            inp: c.inp,
            out: c.out,
        },
        Command::Output => Config {
            mem: c.mem,
            ptr: c.ptr,
            pc: c.pc + 1,
            inp: c.inp,
            out: c.out.push(c.mem[c.ptr]),
        },
        Command::Input => Config {
            mem: c.mem.update(
                c.ptr,
                if c.inp.len() > 0 {
                    c.inp[0]
                } else {
                    0u8
                },
            ),
            ptr: c.ptr,
            pc: c.pc + 1,
            inp: if c.inp.len() > 0 {
                c.inp.subrange(1, c.inp.len() as int)
            } else {
                c.inp
            },
            out: c.out,
        },
        Command::JumpIfZero(t) => Config {
            mem: c.mem,
            ptr: c.ptr,
            pc: if c.mem[c.ptr] == 0 {
                t as int
            } else {
                c.pc + 1
            },
            inp: c.inp,
            out: c.out,
        },
        Command::JumpIfNonZero(t) => Config {
            mem: c.mem,
            ptr: c.ptr,
            pc: if c.mem[c.ptr] != 0 {
                t as int
            } else {
                c.pc + 1
            },
            inp: c.inp,
            out: c.out,
        },
    }
}

/// `n` steps of execution.  A configuration whose program counter has left
/// the command range — at the end of the sequence, execution has
/// terminated — stays as it is, so longer budgets agree with shorter ones
/// once the machine has halted.
pub open spec fn run_n(cmds: Seq<Command>, c: Config, n: nat) -> Config
    decreases n,
{
    if n == 0 {
        c
    } else if !(0 <= c.pc < cmds.len()) {
        c
    } else {
        run_n(cmds, step_config(cmds, c), (n - 1) as nat)
    }
}

/// Step budgets compose: running `n + m` steps is running `n`, then `m`.
pub proof fn lemma_run_n_add(cmds: Seq<Command>, c: Config, n: nat, m: nat)
    ensures
        run_n(cmds, c, n + m) == run_n(cmds, run_n(cmds, c, n), m),
    decreases n,
{
    if n == 0 {
    } else if !(0 <= c.pc < cmds.len()) {
    } else {
        lemma_run_n_add(cmds, step_config(cmds, c), (n - 1) as nat, m);
    }
}

/// Add a byte delta to a tape cell, wrapping at 256 in both directions.
pub fn byte_add(a: u8, b: u8) -> (r: u8)
    ensures
        r == wrap8(a + b),
{
    let s: u16 = (a as u16) + (b as u16);
    (s % 256) as u8
}

/// Move the data pointer by `d` cells, wrapping modulo the tape length.
/// The delta is reduced first, so magnitudes far beyond the tape length
/// stay in bounds.
pub fn wrap_pointer(p: usize, d: isize) -> (r: usize)
    requires
        p < TAPE_LEN,
    ensures
        r < TAPE_LEN,
        r as int == wrap_ptr(p as int, d as int),
{
    let m: usize = TAPE_LEN;
    if d >= 0 {
        let off: usize = (d as usize) % m;
        let r = (p + off) % m;
        proof {
            let di = d as int;
            let mi = m as int;
            vstd::arithmetic::div_mod::lemma_fundamental_div_mod(di, mi);
            vstd::arithmetic::div_mod::lemma_mod_multiples_vanish(
                di / mi,
                p as int + di % mi,
                mi,
            );
        }
        r
    } else {
        let q: usize = (-(d + 1)) as usize;
        let r1: usize = (q % m) + 1;
        let off: usize = m - r1;
        let r = (p + off) % m;
        proof {
            let qi = q as int;
            let mi = m as int;
            vstd::arithmetic::div_mod::lemma_fundamental_div_mod(qi, mi);
            vstd::arithmetic::div_mod::lemma_mod_multiples_vanish(
                1 + qi / mi,
                p as int + d as int,
                mi,
            );
            assert(mi * (1 + qi / mi) + (p as int + d as int) == p as int + off as int) by {
                assert(d as int == -(qi + 1));
                assert(qi == mi * (qi / mi) + qi % mi);
                assert(mi * (1 + qi / mi) == mi + mi * (qi / mi)) by (nonlinear_arith);
            };
        }
        r
    }
}

/// What the current command needs from the caller.
#[derive(Clone, Copy, Debug, PartialEq, Eq, Structural)]
pub enum Effect {
    /// The command was internal to the machine and has been executed.
    Stepped,
    /// The command emits this byte; the machine has moved past it.
    Emitted(u8),
    /// The command reads a byte; supply one through `give_input`.
    AwaitingInput,
}

/// The machine: tape, data pointer, program counter, and the compiled
/// command sequence, which never changes once the machine is built.
pub struct Machine {
    pub memory: Vec<u8>,
    pub pointer: usize,
    pub program_counter: usize,
    pub commands: Vec<Command>,
}

impl Machine {
    /// The state invariant: a full-length tape, an in-range pointer, a
    /// program counter at or before the end, and mutually paired
    /// brackets, which keep every jump target in range.
    pub open spec fn wf(self) -> bool {
        &&& self.memory@.len() == TAPE_LEN
        &&& self.pointer < TAPE_LEN
        &&& self.program_counter <= self.commands@.len()
        &&& brackets_paired(self.commands@)
    }

    /// This machine state as a configuration, joined with the given
    /// pending input and produced output.
    pub open spec fn cfg(self, inp: Seq<u8>, out: Seq<u8>) -> Config {
        Config {
            mem: self.memory@,
            ptr: self.pointer as int,
            pc: self.program_counter as int,
            inp,
            out,
        }
    }

    /// A fresh machine over a compiled command sequence: an all-zero
    /// tape, pointer and program counter at zero.
    pub fn new(commands: Vec<Command>) -> (m: Machine)
        requires
            brackets_paired(commands@),
        ensures
            m.wf(),
            m.commands@ == commands@,
            m.pointer == 0,
            m.program_counter == 0,
            m.memory@.len() == TAPE_LEN,
            forall|k: int| 0 <= k < TAPE_LEN ==> m.memory@[k] == 0,
    {
        let mut memory: Vec<u8> = Vec::new();
        let mut i: usize = 0;
        while i < TAPE_LEN
            invariant
                i <= TAPE_LEN,
                memory@.len() == i,
                forall|k: int| 0 <= k < i ==> memory@[k] == 0,
            decreases TAPE_LEN - i,
        {
            memory.push(0);
            i = i + 1;
        }
        Machine { memory, pointer: 0, program_counter: 0, commands }
    }

    /// Compile a source and build a fresh machine over the result, if the
    /// loop brackets of the source balance.  The length bound is the
    /// machine limit that keeps a folded pointer displacement inside
    /// `isize`.
    pub fn from_source(src: &[u8]) -> (r: Result<Machine, SyntaxError>)
        requires
            src@.len() <= isize::MAX as int,
        ensures
            match r {
                Ok(m) => {
                    &&& m.wf()
                    &&& compile_spec(src@) == Some(m.commands@)
                    &&& m.pointer == 0
                    &&& m.program_counter == 0
                    &&& m.memory@.len() == TAPE_LEN
                    &&& forall|k: int| 0 <= k < TAPE_LEN ==> m.memory@[k] == 0
                },
                Err(e) => compile_spec(src@) is None && e == SyntaxError::UnbalancedBrackets,
            },
            r is Ok <==> brackets_balanced(src@),
    {
        match compile(src) {
            Ok(cmds) => Ok(Machine::new(cmds)),
            Err(e) => Err(e),
        }
    }

    /// Whether the program counter has run past the end of the commands.
    pub fn halted(&self) -> (r: bool)
        ensures
            r == (self.program_counter == self.commands@.len()),
    {
        self.program_counter == self.commands.len()
    }

    /// Execute the current command as far as the machine can on its own.
    /// Arithmetic, pointer moves and jumps complete outright; an output
    /// command completes and surfaces its byte; an input command leaves
    /// the machine untouched until `give_input` supplies the byte.
    pub fn step(&mut self) -> (r: Effect)
        requires
            old(self).wf(),
            old(self).program_counter < old(self).commands@.len(),
        ensures
            final(self).wf(),
            final(self).commands == old(self).commands,
            ({
                let pc = old(self).program_counter as int;
                let cmds = old(self).commands@;
                match r {
                    Effect::Stepped => match cmds[pc] {
                        Command::ChangeByte(d) => {
                            &&& final(self).memory@ == old(self).memory@.update(
                                old(self).pointer as int,
                                wrap8(old(self).memory@[old(self).pointer as int] + d),
                            )
                            &&& final(self).pointer == old(self).pointer
                            &&& final(self).program_counter == old(self).program_counter + 1
                        },
                        Command::ChangePointer(d) => {
                            &&& final(self).memory@ == old(self).memory@
                            &&& final(self).pointer as int == wrap_ptr(old(self).pointer as int, d as int)
                            &&& final(self).program_counter == old(self).program_counter + 1
                        },
                        Command::JumpIfZero(t) => {
                            &&& final(self).memory@ == old(self).memory@
                            &&& final(self).pointer == old(self).pointer
                            &&& final(self).program_counter as int == (
                            if old(self).memory@[old(self).pointer as int] == 0 {
                                t as int
                            } else {
                                old(self).program_counter + 1
                            })
                        },
                        Command::JumpIfNonZero(t) => {
                            &&& final(self).memory@ == old(self).memory@
                            &&& final(self).pointer == old(self).pointer
                            &&& final(self).program_counter as int == (
                            if old(self).memory@[old(self).pointer as int] != 0 {
                                t as int
                            } else {
                                old(self).program_counter + 1
                            })
                        },
                        _ => false,
                    },
                    Effect::Emitted(b) => {
                        &&& cmds[pc] is Output
                        &&& b == old(self).memory@[old(self).pointer as int]
                        &&& final(self).memory@ == old(self).memory@
                        &&& final(self).pointer == old(self).pointer
                        &&& final(self).program_counter == old(self).program_counter + 1
                    },
                    Effect::AwaitingInput => {
                        &&& cmds[pc] is Input
                        &&& *final(self) == *old(self)
                    },
                }
            }),
    {
        let pc = self.program_counter;
        // A usize count of the commands: the counter can move past the
        // last one without overflowing.
        let end: usize = self.commands.len();
        proof {
            assert(pc < end);
        }
        match self.commands[pc] {
            Command::ChangeByte(d) => {
                let cur = self.memory[self.pointer];
                let nv = byte_add(cur, d);
                self.memory[self.pointer] = nv;
                self.program_counter = pc + 1;
                Effect::Stepped
            },
            Command::ChangePointer(d) => {
                self.pointer = wrap_pointer(self.pointer, d);
                self.program_counter = pc + 1;
                Effect::Stepped
            },
            Command::JumpIfZero(t) => {
                proof {
                    assert(jz_matched(self.commands@, pc as int));
                }
                if self.memory[self.pointer] == 0 {
                    self.program_counter = t;
                } else {
                    self.program_counter = pc + 1;
                }
                Effect::Stepped
            },
            Command::JumpIfNonZero(t) => {
                proof {
                    assert(jnz_matched(self.commands@, pc as int));
                }
                if self.memory[self.pointer] != 0 {
                    self.program_counter = t;
                } else {
                    self.program_counter = pc + 1;
                }
                Effect::Stepped
            },
            Command::Output => {
                let b = self.memory[self.pointer];
                self.program_counter = pc + 1;
                Effect::Emitted(b)
            },
            Command::Input => Effect::AwaitingInput,
        }
    }

    /// Supply the byte an input command is waiting for: it is stored in
    /// the cell under the pointer and the machine moves past the command.
    pub fn give_input(&mut self, b: u8)
        requires
            old(self).wf(),
            old(self).program_counter < old(self).commands@.len(),
            old(self).commands@[old(self).program_counter as int] is Input,
        ensures
            final(self).wf(),
            final(self).commands == old(self).commands,
            final(self).memory@ == old(self).memory@.update(old(self).pointer as int, b),
            final(self).pointer == old(self).pointer,
            final(self).program_counter == old(self).program_counter + 1,
    {
        // A usize count of the commands: the counter can move past the
        // last one without overflowing.
        let end: usize = self.commands.len();
        proof {
            assert(self.program_counter < end);
        }
        self.memory[self.pointer] = b;
        self.program_counter = self.program_counter + 1;
    }

    /// Run the machine against an in-memory input for at most `fuel`
    /// steps.  Reading past the end of the input stores zero; every
    /// output byte is collected.  The result is the output of the run
    /// exactly when the machine halts within the budget, and the machine
    /// is left in the state that `fuel` steps of execution reach.
    pub fn run(&mut self, input: &[u8], fuel: u64) -> (r: Option<Vec<u8>>)
        requires
            old(self).wf(),
        ensures
            final(self).wf(),
            final(self).commands@ == old(self).commands@,
            ({
                let fin = run_n(
                    old(self).commands@,
                    old(self).cfg(input@, Seq::empty()),
                    fuel as nat,
                );
                &&& final(self).memory@ == fin.mem
                &&& final(self).pointer as int == fin.ptr
                &&& final(self).program_counter as int == fin.pc
                &&& match r {
                    Some(out) => out@ == fin.out && fin.pc == old(self).commands@.len(),
                    None => fin.pc != old(self).commands@.len(),
                }
            }),
    {
        let ghost cmds = self.commands@;
        let ghost init = self.cfg(input@, Seq::<u8>::empty());
        let mut out: Vec<u8> = Vec::new();
        let mut in_pos: usize = 0;
        let mut steps: u64 = 0;
        while self.program_counter < self.commands.len() && steps < fuel
            invariant
                self.wf(),
                self.commands@ == cmds,
                steps <= fuel,
                in_pos <= input@.len(),
                run_n(cmds, init, steps as nat) == self.cfg(
                    input@.subrange(in_pos as int, input@.len() as int),
                    out@,
                ),
            decreases fuel - steps,
        {
            let ghost pre = *self;
            let ghost pre_pos = in_pos as int;
            let ghost pre_out = out@;
            let eff = self.step();
            match eff {
                Effect::Stepped => {},
                Effect::Emitted(b) => {
                    out.push(b);
                },
                Effect::AwaitingInput => {
                    let b: u8 = if in_pos < input.len() {
                        let x = input[in_pos];
                        in_pos = in_pos + 1;
                        x
                    } else {
                        0
                    };
                    self.give_input(b);
                },
            }
            proof {
                lemma_run_n_add(cmds, init, steps as nat, 1);
                let rest = input@.subrange(pre_pos, input@.len() as int);
                let cur = pre.cfg(rest, pre_out);
                assert(run_n(cmds, step_config(cmds, cur), 0) == step_config(cmds, cur));
                assert(run_n(cmds, cur, 1) == step_config(cmds, cur));
                if eff is AwaitingInput && pre_pos < input@.len() {
                    assert(rest.subrange(1, rest.len() as int) =~= input@.subrange(
                        in_pos as int,
                        input@.len() as int,
                    ));
                }
                assert(step_config(cmds, cur) =~= self.cfg(
                    input@.subrange(in_pos as int, input@.len() as int),
                    out@,
                ));
                assert(run_n(cmds, init, (steps + 1) as nat) == self.cfg(
                    input@.subrange(in_pos as int, input@.len() as int),
                    out@,
                ));
            }
            steps = steps + 1;
        }
        proof {
            lemma_run_n_add(cmds, init, steps as nat, (fuel - steps) as nat);
        }
        if self.program_counter == self.commands.len() {
            Some(out)
        } else {
            None
        }
    }
}

} // verus!
