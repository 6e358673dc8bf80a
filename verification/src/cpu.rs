//! The execution engine: a flat byte memory, a program counter, and three
//! 8-bit registers.
//!
//! The engine's behaviour is specified by a mathematical step function,
//! [`step_spec`], over an abstract state, [`CpuView`].  One step fetches the
//! byte at the program counter, decodes it and its operands, applies the
//! instruction's effect, and advances the program counter by the
//! instruction's encoded length — except for a taken jump, which sets the
//! program counter to the decoded address directly.  [`Cpu::run`] iterates
//! steps, and its contract ties the outcome to the iterated step function
//! [`run_n`].
//!
//! Faults (an unrecognized opcode byte, or a program-counter or operand
//! access outside memory bounds) end execution and are reported distinctly
//! from a program-issued `Exit`.

use vstd::prelude::*;

verus! {

use crate::opcode::{OpCode, opcode_of_byte, instruction_len};

/// A fatal runtime condition: the engine never silently wraps or retries.
#[derive(Clone, Copy, Debug, PartialEq, Eq, Structural)]
pub enum ExecutionFault {
    /// A memory access outside bounds.  Carries the first byte index that
    /// was needed but lies outside memory: the program counter itself, the
    /// memory length when an instruction's operand bytes are cut off by the
    /// end of memory, or an out-of-range operand address.
    OutOfBounds(u32),
    /// The byte at the program counter encodes no opcode.
    UnknownOpcode(u8),
}

/// The memory buffer handed to [`Cpu::new`] exceeds the 32-bit addressable
/// capacity.
#[derive(Clone, Copy, Debug, PartialEq, Eq, Structural)]
pub struct ConfigError;

/// The abstract state of the engine: memory, program counter, registers.
pub ghost struct CpuView {
    pub mem: Seq<u8>,
    pub pc: u32,
    pub ra: u8,
    pub rb: u8,
    pub rc: u8,
}

/// The state machine the engine runs: still running, exited with a code, or
/// stopped by a fault.  The final abstract state is carried alongside the
/// outcome.
pub ghost enum RunState {
    Running(CpuView),
    Exited(u8, CpuView),
    Faulted(ExecutionFault, CpuView),
}

/// The 32-bit value of four bytes read in big-endian order.
pub open spec fn be_val(b0: u8, b1: u8, b2: u8, b3: u8) -> u32 {
    (b0 * 0x100_0000 + b1 * 0x1_0000 + b2 * 0x100 + b3) as u32
}

/// The effect of one decoded instruction on state `s`, assuming the whole
/// instruction lies in memory (`step_spec` checks that first).
pub open spec fn op_effect(s: CpuView, op: OpCode) -> RunState
    recommends
        s.pc + instruction_len(op) <= s.mem.len(),
{
    let pc = s.pc as int;
    let addr = be_val(s.mem[pc + 1], s.mem[pc + 2], s.mem[pc + 3], s.mem[pc + 4]);
    match op {
        OpCode::Nop => RunState::Running(CpuView { pc: (s.pc + 1) as u32, ..s }),
        OpCode::Exit => RunState::Exited(s.mem[pc + 1], s),
        OpCode::Add => RunState::Running(
            CpuView { rc: s.ra.wrapping_add(s.rb), pc: (s.pc + 1) as u32, ..s },
        ),
        OpCode::Subtract => RunState::Running(
            CpuView { rc: s.ra.wrapping_sub(s.rb), pc: (s.pc + 1) as u32, ..s },
        ),
        OpCode::Multiply => RunState::Running(
            CpuView { rc: s.ra.wrapping_mul(s.rb), pc: (s.pc + 1) as u32, ..s },
        ),
        OpCode::LoadA => if addr < s.mem.len() {
            RunState::Running(CpuView { ra: s.mem[addr as int], pc: (s.pc + 5) as u32, ..s })
        } else {
            RunState::Faulted(ExecutionFault::OutOfBounds(addr), s)
        },
        OpCode::LoadB => if addr < s.mem.len() {
            RunState::Running(CpuView { rb: s.mem[addr as int], pc: (s.pc + 5) as u32, ..s })
        } else {
            RunState::Faulted(ExecutionFault::OutOfBounds(addr), s)
        },
        OpCode::LoadC => if addr < s.mem.len() {
            RunState::Running(CpuView { rc: s.mem[addr as int], pc: (s.pc + 5) as u32, ..s })
        } else {
            RunState::Faulted(ExecutionFault::OutOfBounds(addr), s)
        },
        OpCode::StoreA => if addr < s.mem.len() {
            RunState::Running(
                CpuView { mem: s.mem.update(addr as int, s.ra), pc: (s.pc + 5) as u32, ..s },
            )
        } else {
            RunState::Faulted(ExecutionFault::OutOfBounds(addr), s)
        },
        OpCode::StoreB => if addr < s.mem.len() {
            RunState::Running(
                CpuView { mem: s.mem.update(addr as int, s.rb), pc: (s.pc + 5) as u32, ..s },
            )
        } else {
            RunState::Faulted(ExecutionFault::OutOfBounds(addr), s)
        },
        OpCode::StoreC => if addr < s.mem.len() {
            RunState::Running(
                CpuView { mem: s.mem.update(addr as int, s.rc), pc: (s.pc + 5) as u32, ..s },
            )
        } else {
            RunState::Faulted(ExecutionFault::OutOfBounds(addr), s)
        },
        OpCode::Jump => RunState::Running(CpuView { pc: addr, ..s }),
        OpCode::Jeq => if s.ra == s.rb {
            RunState::Running(CpuView { pc: addr, ..s })
        } else {
            RunState::Running(CpuView { pc: (s.pc + 5) as u32, ..s })
        },
        OpCode::Jneq => if s.ra != s.rb {
            RunState::Running(CpuView { pc: addr, ..s })
        } else {
            RunState::Running(CpuView { pc: (s.pc + 5) as u32, ..s })
        },
        OpCode::Jgt => if s.ra > s.rb {
            RunState::Running(CpuView { pc: addr, ..s })
        } else {
            RunState::Running(CpuView { pc: (s.pc + 5) as u32, ..s })
        },
        OpCode::Jlt => if s.ra < s.rb {
            RunState::Running(CpuView { pc: addr, ..s })
        } else {
            RunState::Running(CpuView { pc: (s.pc + 5) as u32, ..s })
        },
    }
}

/// One fetch-decode-execute step.  A program counter outside memory, an
/// instruction whose operand bytes are cut off by the end of memory, or a
/// byte that decodes to no opcode is a fault; otherwise the instruction's
/// effect applies.
pub open spec fn step_spec(s: CpuView) -> RunState {
    if s.pc >= s.mem.len() {
        RunState::Faulted(ExecutionFault::OutOfBounds(s.pc), s)
    } else {
        match opcode_of_byte(s.mem[s.pc as int]) {
            Option::None => RunState::Faulted(
                ExecutionFault::UnknownOpcode(s.mem[s.pc as int]),
                s,
            ),
            Option::Some(op) => if s.pc + instruction_len(op) > s.mem.len() {
                RunState::Faulted(ExecutionFault::OutOfBounds(s.mem.len() as u32), s)
            } else {
                op_effect(s, op)
            },
        }
    }
}

/// The state after `n` steps from `s`: once exited or faulted, the outcome
/// is final.
pub open spec fn run_n(s: CpuView, n: nat) -> RunState
    decreases n,
{
    if n == 0 {
        RunState::Running(s)
    } else {
        match run_n(s, (n - 1) as nat) {
            RunState::Running(s2) => step_spec(s2),
            done => done,
        }
    }
}

/// What one call of [`Cpu::step`] reported.
#[derive(Clone, Copy, Debug, PartialEq, Eq, Structural)]
pub enum StepOutcome {
    /// The instruction executed and the machine is still running.
    Continued,
    /// The instruction was `Exit`; the byte after it is the code.
    Exited(u8),
    /// A fatal condition; the state is left as it was before the step.
    Faulted(ExecutionFault),
}

/// What a bounded [`Cpu::run`] ended with.
#[derive(Clone, Copy, Debug, PartialEq, Eq, Structural)]
pub enum RunResult {
    /// The program issued `Exit` with this code.
    Exited(u8),
    /// A fatal condition stopped execution.
    Faulted(ExecutionFault),
    /// The step budget was spent and the machine is still running.
    Running,
}

/// The engine.  Memory is bounded by the 32-bit address space; the program
/// counter starts at zero; the registers start at zero.
pub struct Cpu {
    memory: Vec<u8>,
    ptr: u32,
    ra: u8,
    rb: u8,
    rc: u8,
}

impl View for Cpu {
    type V = CpuView;

    closed spec fn view(&self) -> CpuView {
        CpuView { mem: self.memory@, pc: self.ptr, ra: self.ra, rb: self.rb, rc: self.rc }
    }
}

impl Cpu {
    /// Memory never exceeds the 32-bit addressable capacity; [`Cpu::new`]
    /// refuses larger buffers, so every engine it hands out satisfies this.
    pub open spec fn wf(&self) -> bool {
        self@.mem.len() <= u32::MAX
    }

    /// Create an engine over `memory` with the program counter and all
    /// registers at zero.  A buffer beyond the 32-bit address space is a
    /// configuration error.
    pub fn new(memory: Vec<u8>) -> (r: Result<Cpu, ConfigError>)
        ensures
            match r {
                Ok(cpu) => memory@.len() <= u32::MAX && cpu.wf() && cpu@ == (CpuView {
                    mem: memory@,
                    pc: 0,
                    ra: 0,
                    rb: 0,
                    rc: 0,
                }),
                Err(_) => memory@.len() > u32::MAX,
            },
    {
        if memory.len() > u32::MAX as usize {
            return Err(ConfigError);
        }
        Ok(Cpu { memory, ptr: 0, ra: 0, rb: 0, rc: 0 })
    }

    /// Advance the program counter to the next byte.
    pub fn increment_ptr(&mut self)
        requires
            old(self)@.pc < u32::MAX,
        ensures
            final(self)@ == (CpuView { pc: (old(self)@.pc + 1) as u32, ..old(self)@ }),
    {
        self.ptr = self.ptr + 1;
    }

    /// Point the program counter at `address`.
    pub fn set_ptr(&mut self, address: u32)
        ensures
            final(self)@ == (CpuView { pc: address, ..old(self)@ }),
    {
        self.ptr = address;
    }

    /// The byte at the program counter.
    pub fn current_memory(&self) -> (r: u8)
        requires
            self@.pc < self@.mem.len(),
        ensures
            r == self@.mem[self@.pc as int],
    {
        self.memory[self.ptr as usize]
    }

    /// The byte at `address`.
    pub fn get_memory(&self, address: u32) -> (r: u8)
        requires
            address < self@.mem.len(),
        ensures
            r == self@.mem[address as int],
    {
        self.memory[address as usize]
    }

    /// The whole memory.
    pub fn memory(&self) -> (r: &Vec<u8>)
        ensures
            r@ == self@.mem,
    {
        &self.memory
    }

    /// Write `value` at `address`.
    pub fn set_memory(&mut self, address: u32, value: u8)
        requires
            address < old(self)@.mem.len(),
        ensures
            final(self)@ == (CpuView {
                mem: old(self)@.mem.update(address as int, value),
                ..old(self)@
            }),
    {
        self.memory[address as usize] = value;
    }

    /// The byte after the one at the program counter.
    pub fn memory_next_byte(&self) -> (r: u8)
        requires
            self@.pc + 1 < self@.mem.len(),
        ensures
            r == self@.mem[self@.pc + 1],
    {
        let len = self.memory.len();
        assert(self.ptr as usize + 1 < len);
        self.memory[self.ptr as usize + 1]
    }

    /// Read the four bytes after the program counter as a big-endian 32-bit
    /// address, leaving the program counter on the last of them.
    pub fn memory_next_address(&mut self) -> (r: u32)
        requires
            old(self)@.pc + 4 < old(self)@.mem.len(),
            old(self).wf(),
        ensures
            r == be_val(
                old(self)@.mem[old(self)@.pc + 1],
                old(self)@.mem[old(self)@.pc + 2],
                old(self)@.mem[old(self)@.pc + 3],
                old(self)@.mem[old(self)@.pc + 4],
            ),
            final(self)@ == (CpuView { pc: (old(self)@.pc + 4) as u32, ..old(self)@ }),
    {
        let r = self.read_address(self.ptr as usize);
        self.ptr = self.ptr + 4;
        r
    }

    /// The big-endian 32-bit value of the four bytes after `base`.
    fn read_address(&self, base: usize) -> (r: u32)
        requires
            base + 4 < self@.mem.len(),
        ensures
            r == be_val(
                self@.mem[base + 1],
                self@.mem[base + 2],
                self@.mem[base + 3],
                self@.mem[base + 4],
            ),
    {
        let len = self.memory.len();
        assert(base + 4 < len);
        let b0 = self.memory[base + 1];
        let b1 = self.memory[base + 2];
        let b2 = self.memory[base + 3];
        let b3 = self.memory[base + 4];
        (b0 as u32) * 0x100_0000 + (b1 as u32) * 0x1_0000 + (b2 as u32) * 0x100 + (b3 as u32)
    }

    /// Execute one instruction, as [`step_spec`] describes: the reported
    /// outcome and the state after the call are exactly one spec step from
    /// the state before it.
    pub fn step(&mut self) -> (r: StepOutcome)
        requires
            old(self).wf(),
        ensures
            final(self).wf(),
            final(self)@.mem.len() == old(self)@.mem.len(),
            match r {
                StepOutcome::Continued => step_spec(old(self)@) == RunState::Running(
                    final(self)@,
                ),
                StepOutcome::Exited(code) => step_spec(old(self)@) == RunState::Exited(
                    code,
                    final(self)@,
                ),
                StepOutcome::Faulted(f) => step_spec(old(self)@) == RunState::Faulted(
                    f,
                    final(self)@,
                ),
            },
    {
        let len = self.memory.len();
        let ptr = self.ptr as usize;
        if ptr >= len {
            return StepOutcome::Faulted(ExecutionFault::OutOfBounds(self.ptr));
        }
        let byte = self.memory[ptr];
        let op = match OpCode::from_byte(byte) {
            Some(op) => op,
            None => {
                return StepOutcome::Faulted(ExecutionFault::UnknownOpcode(byte));
            },
        };
        let ilen = op.encoded_length() as usize;
        if len - ptr < ilen {
            return StepOutcome::Faulted(ExecutionFault::OutOfBounds(len as u32));
        }
        match op {
            OpCode::Nop => {
                self.ptr = self.ptr + 1;
                StepOutcome::Continued
            },
            OpCode::Exit => {
                let code = self.memory[ptr + 1];
                StepOutcome::Exited(code)
            },
            OpCode::Add => {
                self.rc = self.ra.wrapping_add(self.rb);
                self.ptr = self.ptr + 1;
                StepOutcome::Continued
            },
            OpCode::Subtract => {
                self.rc = self.ra.wrapping_sub(self.rb);
                self.ptr = self.ptr + 1;
                StepOutcome::Continued
            },
            OpCode::Multiply => {
                self.rc = self.ra.wrapping_mul(self.rb);
                self.ptr = self.ptr + 1;
                StepOutcome::Continued
            },
            OpCode::LoadA => {
                let address = self.read_address(ptr);
                if (address as usize) < len {
                    self.ra = self.memory[address as usize];
                    self.ptr = self.ptr + 5;
                    StepOutcome::Continued
                } else {
                    StepOutcome::Faulted(ExecutionFault::OutOfBounds(address))
                }
            },
            OpCode::LoadB => {
                let address = self.read_address(ptr);
                if (address as usize) < len {
                    self.rb = self.memory[address as usize];
                    self.ptr = self.ptr + 5;
                    StepOutcome::Continued
                } else {
                    StepOutcome::Faulted(ExecutionFault::OutOfBounds(address))
                }
            },
            OpCode::LoadC => {
                let address = self.read_address(ptr);
                if (address as usize) < len {
                    self.rc = self.memory[address as usize];
                    self.ptr = self.ptr + 5;
                    StepOutcome::Continued
                } else {
                    StepOutcome::Faulted(ExecutionFault::OutOfBounds(address))
                }
            },
            OpCode::StoreA => {
                let address = self.read_address(ptr);
                if (address as usize) < len {
                    self.memory[address as usize] = self.ra;
                    self.ptr = self.ptr + 5;
                    StepOutcome::Continued
                } else {
                    StepOutcome::Faulted(ExecutionFault::OutOfBounds(address))
                }
            },
            OpCode::StoreB => {
                let address = self.read_address(ptr);
                if (address as usize) < len {
                    self.memory[address as usize] = self.rb;
                    self.ptr = self.ptr + 5;
                    StepOutcome::Continued
                } else {
                    StepOutcome::Faulted(ExecutionFault::OutOfBounds(address))
                }
            },
            OpCode::StoreC => {
                let address = self.read_address(ptr);
                if (address as usize) < len {
                    self.memory[address as usize] = self.rc;
                    self.ptr = self.ptr + 5;
                    StepOutcome::Continued
                } else {
                    StepOutcome::Faulted(ExecutionFault::OutOfBounds(address))
                }
            },
            OpCode::Jump => {
                let address = self.read_address(ptr);
                self.ptr = address;
                StepOutcome::Continued
            },
            OpCode::Jeq => {
                let address = self.read_address(ptr);
                if self.ra == self.rb {
                    self.ptr = address;
                } else {
                    self.ptr = self.ptr + 5;
                }
                StepOutcome::Continued
            },
            OpCode::Jneq => {
                let address = self.read_address(ptr);
                if self.ra != self.rb {
                    self.ptr = address;
                } else {
                    self.ptr = self.ptr + 5;
                }
                StepOutcome::Continued
            },
            OpCode::Jgt => {
                let address = self.read_address(ptr);
                if self.ra > self.rb {
                    self.ptr = address;
                } else {
                    self.ptr = self.ptr + 5;
                }
                StepOutcome::Continued
            },
            OpCode::Jlt => {
                let address = self.read_address(ptr);
                if self.ra < self.rb {
                    self.ptr = address;
                } else {
                    self.ptr = self.ptr + 5;
                }
                StepOutcome::Continued
            },
        }
    }

    /// Run the machine for at most `budget` steps.  The reported outcome and
    /// the state after the call are exactly what iterating [`step_spec`]
    /// from the state before the call yields: an exit code or a fault after
    /// some number of steps within the budget, or a machine that is still
    /// running after precisely `budget` steps.
    pub fn run(&mut self, budget: u64) -> (r: RunResult)
        requires
            old(self).wf(),
        ensures
            final(self).wf(),
            final(self)@.mem.len() == old(self)@.mem.len(),
            match r {
                RunResult::Exited(code) => exists|n: nat|
                    n <= budget && #[trigger] run_n(old(self)@, n) == RunState::Exited(
                        code,
                        final(self)@,
                    ),
                RunResult::Faulted(f) => exists|n: nat|
                    n <= budget && #[trigger] run_n(old(self)@, n) == RunState::Faulted(
                        f,
                        final(self)@,
                    ),
                RunResult::Running => run_n(old(self)@, budget as nat) == RunState::Running(
                    final(self)@,
                ),
            },
    {
        let ghost init = self@;
        let ghost mut steps: nat = 0;
        let mut fuel: u64 = budget;
        loop
            invariant
                self.wf(),
                self@.mem.len() == init.mem.len(),
                init == old(self)@,
                steps + fuel == budget,
                run_n(init, steps) == RunState::Running(self@),
            decreases fuel,
        {
            if fuel == 0 {
                return RunResult::Running;
            }
            let ghost prev = self@;
            let outcome = self.step();
            fuel = fuel - 1;
            proof {
                steps = steps + 1;
                assert(run_n(init, steps) == step_spec(prev));
            }
            match outcome {
                StepOutcome::Continued => {},
                StepOutcome::Exited(code) => {
                    return RunResult::Exited(code);
                },
                StepOutcome::Faulted(f) => {
                    return RunResult::Faulted(f);
                },
            }
        }
    }
}

} // verus!
