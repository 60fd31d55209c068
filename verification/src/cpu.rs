//! A CHIP-8 opcode interpreter over a small fixed machine: sixteen one-byte
//! registers, 4 KiB of memory, and a sixteen-deep call stack.
//!
//! Four opcodes are understood: `0000` halts, `00EE` returns from a call,
//! `2nnn` calls the routine at `nnn`, and `8xy4` adds register `y` into
//! register `x`, with register `F` as the carry flag. `run` is specified
//! against a small-step interpreter, [`spec_step`]: it drives the machine to
//! its halting state whenever one is reachable.

use vstd::prelude::*;

verus! {

/// The machine as specifications see it.
pub struct CpuState {
    pub registers: Seq<u8>,
    pub memory: Seq<u8>,
    pub position_in_memory: int,
    pub stack: Seq<u16>,
    pub stack_pointer: int,
}

/// The two bytes at the program counter, big-endian.
pub open spec fn spec_opcode(s: CpuState) -> u16 {
    ((s.memory[s.position_in_memory] as u16) << 8) | (s.memory[s.position_in_memory + 1] as u16)
}

/// The machine after a return: the saved position is popped off the stack.
pub open spec fn spec_ret(s: CpuState) -> CpuState {
    CpuState {
        stack_pointer: s.stack_pointer - 1,
        position_in_memory: s.stack[s.stack_pointer - 1] as int,
        ..s
    }
}

/// The machine after a call: the current position is pushed and execution
/// moves to `nnn`.
pub open spec fn spec_call(s: CpuState, nnn: u16) -> CpuState {
    CpuState {
        stack: s.stack.update(s.stack_pointer, s.position_in_memory as u16),
        stack_pointer: s.stack_pointer + 1,
        position_in_memory: nnn as int,
        ..s
    }
}

/// The machine after an add: register `x` takes the wrapped sum of registers
/// `x` and `y`, and register `F` the carry.
pub open spec fn spec_add(s: CpuState, x: u8, y: u8) -> CpuState {
    let sum = s.registers[x as int] + s.registers[y as int];
    let val = (sum % 256) as u8;
    let carry: u8 = if sum > 255 {
        1
    } else {
        0
    };
    CpuState { registers: s.registers.update(x as int, val).update(15, carry), ..s }
}

/// What one fetch-decode-execute step does.
pub enum Step {
    /// The machine halted; this is its final state.
    Halt(CpuState),
    /// The machine executed one opcode and goes on from here.
    Next(CpuState),
    /// The opcode is not understood, or the stack over- or underflows.
    Fault,
}

/// One step of the machine: fetch the opcode at the program counter, advance
/// the counter past it, and dispatch.
pub open spec fn spec_step(s: CpuState) -> Step {
    if !(0 <= s.position_in_memory && s.position_in_memory + 1 < 4096) {
        Step::Fault
    } else {
        let op = spec_opcode(s);
        let c = ((op & 0xF000) >> 12) as u8;
        let x = ((op & 0x0F00) >> 8) as u8;
        let y = ((op & 0x00F0) >> 4) as u8;
        let d = (op & 0x000F) as u8;
        let nnn = op & 0x0FFF;
        let s2 = CpuState { position_in_memory: s.position_in_memory + 2, ..s };
        if c == 0 && x == 0 && y == 0 && d == 0 {
            Step::Halt(s2)
        } else if c == 0 && x == 0 && y == 0xE && d == 0xE {
            if 1 <= s2.stack_pointer <= 16 {
                Step::Next(spec_ret(s2))
            } else {
                Step::Fault
            }
        } else if c == 2 {
            if 0 <= s2.stack_pointer < 16 {
                Step::Next(spec_call(s2, nnn))
            } else {
                Step::Fault
            }
        } else if c == 8 && d == 4 {
            Step::Next(spec_add(s2, x, y))
        } else {
            Step::Fault
        }
    }
}

/// The machine started at `s` halts in state `t` within `n` steps, every
/// step understood.
pub open spec fn runs_to(s: CpuState, t: CpuState, n: nat) -> bool
    decreases n,
{
    match spec_step(s) {
        Step::Halt(h) => h == t,
        Step::Next(s2) => n > 0 && runs_to(s2, t, (n - 1) as nat),
        Step::Fault => false,
    }
}

/// The machine started at `s` halts in state `t`.
pub open spec fn halts_to(s: CpuState, t: CpuState) -> bool {
    exists|n: nat| runs_to(s, t, n)
}

/// The machine.
pub struct CPU {
    pub registers: [u8; 16],
    pub memory: [u8; 4096],
    pub position_in_memory: usize,
    pub stack: [u16; 16],
    pub stack_pointer: usize,
}

impl View for CPU {
    type V = CpuState;

    open spec fn view(&self) -> CpuState {
        CpuState {
            registers: self.registers@,
            memory: self.memory@,
            position_in_memory: self.position_in_memory as int,
            stack: self.stack@,
            stack_pointer: self.stack_pointer as int,
        }
    }
}

impl CPU {
    /// Reads the two bytes at the program counter as one big-endian opcode.
    pub fn read_opcode(&self) -> (r: u16)
        requires
            self.position_in_memory + 1 < 4096,
        ensures
            r == spec_opcode(self@),
    {
        let p = self.position_in_memory;
        let op_byte1 = self.memory[p] as u16;
        let op_byte2 = self.memory[p + 1] as u16;
        op_byte1 << 8 | op_byte2
    }

    /// Adds register `y` into register `x`, wrapping, and sets register `F`
    /// to one exactly when the sum overflowed a byte.
    pub fn add_xy(&mut self, x: u8, y: u8)
        requires
            x < 16,
            y < 16,
        ensures
            final(self)@ == spec_add(old(self)@, x, y),
    {
        let arg1 = self.registers[x as usize];
        let arg2 = self.registers[y as usize];
        let sum = arg1 as u16 + arg2 as u16;
        let val = (sum % 256) as u8;
        let overflow = sum > 255;
        self.registers[x as usize] = val;
        if overflow {
            self.registers[15] = 1;
        } else {
            self.registers[15] = 0;
        }
    }

    /// Saves the current position on the stack and jumps to `addr`.
    pub fn call(&mut self, addr: u16)
        requires
            old(self).stack_pointer < 16,
            old(self).position_in_memory <= 0xFFFF,
        ensures
            final(self)@ == spec_call(old(self)@, addr),
    {
        let sp = self.stack_pointer;
        self.stack[sp] = self.position_in_memory as u16;
        self.stack_pointer = sp + 1;
        self.position_in_memory = addr as usize;
    }

    /// Pops the saved position off the stack and jumps back to it.
    pub fn ret(&mut self)
        requires
            1 <= old(self).stack_pointer <= 16,
        ensures
            final(self)@ == spec_ret(old(self)@),
    {
        self.stack_pointer = self.stack_pointer - 1;
        let addr = self.stack[self.stack_pointer];
        self.position_in_memory = addr as usize;
    }

    /// Fetches and executes opcodes until the machine halts. The machine must
    /// be one that halts without faulting; it then ends in exactly the
    /// halting state the step relation reaches.
    #[verifier::loop_isolation(false)]
    pub fn run(&mut self)
        requires
            exists|t: CpuState| halts_to(old(self)@, t),
        ensures
            halts_to(old(self)@, final(self)@),
            forall|t: CpuState| halts_to(old(self)@, t) ==> t == final(self)@,
    {
        let ghost s0 = self@;
        let ghost t0 = choose|t: CpuState| halts_to(s0, t);
        let ghost mut fuel = choose|n: nat| runs_to(s0, t0, n);
        proof {
            assert(runs_to(s0, t0, fuel));
        }
        loop
            invariant
                exists|t: CpuState| runs_to(self@, t, fuel),
                forall|t: CpuState| halts_to(s0, t) <==> halts_to(self@, t),
            decreases fuel,
        {
            let ghost pre = self@;
            let ghost tcur = choose|t: CpuState| runs_to(pre, t, fuel);
            proof {
                assert(runs_to(pre, tcur, fuel));
                assert(!(spec_step(pre) is Fault));
            }
            let opcode = self.read_opcode();
            self.position_in_memory = self.position_in_memory + 2;
            let c = ((opcode & 0xF000) >> 12) as u8;
            let x = ((opcode & 0x0F00) >> 8) as u8;
            let y = ((opcode & 0x00F0) >> 4) as u8;
            let d = (opcode & 0x000F) as u8;
            let nnn = opcode & 0x0FFF;
            match (c, x, y, d) {
                (0, 0, 0, 0) => {
                    proof {
                        assert(spec_step(pre) == Step::Halt(self@));
                        assert forall|t: CpuState| halts_to(s0, t) implies t == self@ by {
                            let n = choose|n: nat| runs_to(pre, t, n);
                        }
                        assert(runs_to(pre, self@, 0));
                    }
                    return ;
                },
                (0, 0, 0xE, 0xE) => {
                    self.ret();
                },
                (2, _, _, _) => {
                    self.call(nnn);
                },
                (8, _, _, 4) => {
                    proof {
                        assert(((opcode & 0x0F00) >> 8) < 16) by (bit_vector);
                        assert(((opcode & 0x00F0) >> 4) < 16) by (bit_vector);
                    }
                    self.add_xy(x, y);
                },
                _ => {
                    proof {
                        assert(false);
                    }
                },
            }
            proof {
                assert(spec_step(pre) == Step::Next(self@));
                assert(runs_to(pre, tcur, fuel));
                fuel = (fuel - 1) as nat;
                assert(runs_to(self@, tcur, fuel));
                assert forall|t: CpuState| halts_to(pre, t) implies halts_to(self@, t) by {
                    let n = choose|n: nat| runs_to(pre, t, n);
                    assert(runs_to(pre, t, n));
                    assert(runs_to(self@, t, (n - 1) as nat));
                }
                assert forall|t: CpuState| halts_to(self@, t) implies halts_to(pre, t) by {
                    let n = choose|n: nat| runs_to(self@, t, n);
                    assert(runs_to(pre, t, n + 1));
                }
            }
        }
    }
}

} // verus!
