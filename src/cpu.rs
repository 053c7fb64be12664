//! A small CHIP-8 style processor: sixteen 8-bit registers, 4 KiB of memory
//! and a sixteen-entry call stack. It knows four instructions: `0000` halts,
//! `00EE` returns, `2nnn` calls the routine at `nnn`, and `8xy4` adds register
//! `y` to register `x`, with register `F` as the carry flag.
use vstd::prelude::*;

verus! {

/// Bytes of memory.
pub const MEMORY_SIZE: usize = 4096;

/// Entries of the call stack.
pub const STACK_SIZE: usize = 16;

/// Why execution stopped.
#[derive(Clone, Copy, Debug, PartialEq, Eq, Structural)]
pub enum Outcome {
    /// The halt instruction `0000` was read.
    Halted,
    /// A call found the stack full.
    StackOverflow,
    /// A return found the stack empty.
    StackUnderflow,
    /// An instruction that this processor does not implement.
    UnknownOpcode(u16),
    /// The next instruction would be read past the end of memory.
    OutOfMemory,
}

/// The processor's state as plain values.
pub struct CpuState {
    pub registers: Seq<u8>,
    pub position: int,
    pub memory: Seq<u8>,
    pub stack: Seq<u16>,
    pub stack_pointer: int,
}

/// The processor.
pub struct Cpu {
    pub registers: [u8; 16],
    pub position_in_memory: usize,
    pub memory: [u8; 4096],
    pub stack: [u16; 16],
    pub stack_pointer: usize,
}

impl View for Cpu {
    type V = CpuState;

    open spec fn view(&self) -> CpuState {
        CpuState {
            registers: self.registers@,
            position: self.position_in_memory as int,
            memory: self.memory@,
            stack: self.stack@,
            stack_pointer: self.stack_pointer as int,
        }
    }
}

/// The big-endian instruction at `p`.
pub open spec fn opcode_at(memory: Seq<u8>, p: int) -> u16 {
    (memory[p] * 256 + memory[p + 1]) as u16
}

/// `8xy4` on register values: the wrapped sum goes to `x`, then the carry to
/// `F`.
pub open spec fn add_xy_state(s: CpuState, x: int, y: int) -> CpuState {
    let sum = s.registers[x] + s.registers[y];
    CpuState {
        registers: s.registers.update(x, (sum % 256) as u8).update(
            15,
            if sum >= 256 {
                1u8
            } else {
                0u8
            },
        ),
        ..s
    }
}

/// A call: push the current position and jump to `addr`.
pub open spec fn call_state(s: CpuState, addr: u16) -> (CpuState, Option<Outcome>) {
    if s.stack_pointer < 0 || s.stack_pointer >= 16 {
        (s, Some(Outcome::StackOverflow))
    } else {
        (
            CpuState {
                stack: s.stack.update(s.stack_pointer, s.position as u16),
                stack_pointer: s.stack_pointer + 1,
                position: addr as int,
                ..s
            },
            None,
        )
    }
}

/// A return: pop the position saved by the matching call.
pub open spec fn ret_state(s: CpuState) -> (CpuState, Option<Outcome>) {
    if s.stack_pointer <= 0 || s.stack_pointer > 16 {
        (s, Some(Outcome::StackUnderflow))
    } else {
        (
            CpuState {
                stack_pointer: s.stack_pointer - 1,
                position: s.stack[s.stack_pointer - 1] as int,
                ..s
            },
            None,
        )
    }
}

/// One fetch and execute. `None` means that execution goes on.
pub open spec fn step(s: CpuState) -> (CpuState, Option<Outcome>) {
    let p = s.position;
    if p < 0 || p + 1 >= 4096 {
        (s, Some(Outcome::OutOfMemory))
    } else {
        let op = opcode_at(s.memory, p);
        let t = CpuState { position: p + 2, ..s };
        if op == 0 {
            (t, Some(Outcome::Halted))
        } else if op == 0x00EE {
            ret_state(t)
        } else if op / 4096 == 2 {
            call_state(t, (op % 4096) as u16)
        } else if op / 4096 == 8 && op % 16 == 4 {
            (add_xy_state(t, (op / 256) as int % 16, (op / 16) as int % 16), None)
        } else {
            (t, Some(Outcome::UnknownOpcode(op)))
        }
    }
}

/// Digit `i` of the progress measure: a saved return position, the current
/// position, or, past the top of the stack, a value above all of them. Each
/// step that goes on makes the digits larger in lexicographic order.
pub open spec fn digit(s: CpuState, i: int) -> int {
    if i < s.stack_pointer {
        s.stack[i] as int
    } else if i == s.stack_pointer {
        if s.position < 65536 {
            s.position
        } else {
            65536
        }
    } else {
        65536
    }
}

/// The well-formed states: sizes as declared, the stack pointer in range.
pub open spec fn state_wf(s: CpuState) -> bool {
    &&& s.registers.len() == 16
    &&& s.memory.len() == 4096
    &&& s.stack.len() == 16
    &&& 0 <= s.stack_pointer <= 16
    &&& 0 <= s.position
}

/// Runs from `s` until execution stops, giving the final state and the reason.
pub open spec fn execute(s: CpuState) -> (CpuState, Outcome)
    decreases
            65536 - digit(s, 0),
            65536 - digit(s, 1),
            65536 - digit(s, 2),
            65536 - digit(s, 3),
            65536 - digit(s, 4),
            65536 - digit(s, 5),
            65536 - digit(s, 6),
            65536 - digit(s, 7),
            65536 - digit(s, 8),
            65536 - digit(s, 9),
            65536 - digit(s, 10),
            65536 - digit(s, 11),
            65536 - digit(s, 12),
            65536 - digit(s, 13),
            65536 - digit(s, 14),
            65536 - digit(s, 15),
            65536 - digit(s, 16),
    when state_wf(s)
{
    let (t, out) = step(s);
    match out {
        Some(o) => (t, o),
        None => execute(t),
    }
}

/// A step from a well-formed state leads to a well-formed state.
pub proof fn lemma_step_wf(s: CpuState)
    requires
        state_wf(s),
    ensures
        state_wf(step(s).0),
{
}

/// When a step goes on, executing from `s` is executing from the state after
/// that step.
proof fn lemma_execute_step(s: CpuState)
    requires
        state_wf(s),
        step(s).1 is None,
    ensures
        execute(s) == execute(step(s).0),
{
}

impl Cpu {
    /// A processor with zeroed registers, memory and stack.
    pub fn new() -> (r: Cpu)
        ensures
            r@.registers == Seq::new(16, |i: int| 0u8),
            r@.memory == Seq::new(4096, |i: int| 0u8),
            r@.stack == Seq::new(16, |i: int| 0u16),
            r@.position == 0,
            r@.stack_pointer == 0,
    {
        let r = Cpu {
            registers: [0u8; 16],
            memory: [0u8; 4096],
            position_in_memory: 0,
            stack: [0u16; 16],
            stack_pointer: 0,
        };
        assert(r@.registers =~= Seq::new(16, |i: int| 0u8));
        assert(r@.memory =~= Seq::new(4096, |i: int| 0u8));
        assert(r@.stack =~= Seq::new(16, |i: int| 0u16));
        r
    }

    /// The instruction at the current position: the byte there is its high
    /// half, the next byte its low half.
    pub fn read_opcode(&self) -> (r: u16)
        requires
            self.position_in_memory + 1 < MEMORY_SIZE,
        ensures
            r == opcode_at(self@.memory, self@.position),
    {
        let p = self.position_in_memory;
        let high = self.memory[p] as u16;
        let low = self.memory[p + 1] as u16;
        assert((high << 8u16) | low == high * 256 + low) by (bit_vector)
            requires
                high < 256,
                low < 256,
        ;
        (high << 8u16) | low
    }

    /// Calls the routine at `addr`: saves the current position on the stack
    /// and jumps. Reports `StackOverflow` when the stack is full.
    pub fn call(&mut self, addr: u16) -> (r: Option<Outcome>)
        requires
            state_wf(old(self)@),
        ensures
            (final(self)@, r) == call_state(old(self)@, addr),
    {
        let sp = self.stack_pointer;
        if sp >= STACK_SIZE {
            return Some(Outcome::StackOverflow);
        }
        self.stack[sp] = self.position_in_memory as u16;
        self.stack_pointer = sp + 1;
        self.position_in_memory = addr as usize;
        None
    }

    /// Returns from the current routine to the position saved by its call.
    /// Reports `StackUnderflow` when the stack is empty.
    pub fn ret(&mut self) -> (r: Option<Outcome>)
        requires
            state_wf(old(self)@),
        ensures
            (final(self)@, r) == ret_state(old(self)@),
    {
        if self.stack_pointer == 0 {
            return Some(Outcome::StackUnderflow);
        }
        self.stack_pointer = self.stack_pointer - 1;
        self.position_in_memory = self.stack[self.stack_pointer] as usize;
        None
    }

    /// Adds register `y` to register `x`, wrapping, and sets register `F` to 1
    /// on overflow and to 0 otherwise.
    pub fn add_xy(&mut self, x: u8, y: u8)
        requires
            x < 16,
            y < 16,
        ensures
            final(self)@ == add_xy_state(old(self)@, x as int, y as int),
    {
        let arg1 = self.registers[x as usize];
        let arg2 = self.registers[y as usize];
        let sum = arg1 as u16 + arg2 as u16;
        let val = (sum % 256) as u8;
        let overflow = sum >= 256;
        self.registers[x as usize] = val;
        if overflow {
            self.registers[15] = 1;
        } else {
            self.registers[15] = 0;
        }
        assert(final(self)@.registers =~= add_xy_state(old(self)@, x as int, y as int).registers);
    }

    /// One fetch and execute; `None` means that execution goes on.
    fn step(&mut self) -> (r: Option<Outcome>)
        requires
            state_wf(old(self)@),
        ensures
            (final(self)@, r) == step(old(self)@),
    {
        let p = self.position_in_memory;
        if p >= MEMORY_SIZE - 1 {
            return Some(Outcome::OutOfMemory);
        }
        let opcode = self.read_opcode();
        self.position_in_memory = p + 2;
        let c = (opcode & 0xF000) >> 12u16;
        let x = (opcode & 0x0F00) >> 8u16;
        let y = (opcode & 0x00F0) >> 4u16;
        let d = opcode & 0x000F;
        let addr = opcode & 0x0FFF;
        assert(c == opcode / 4096 && x == (opcode / 256) % 16 && y == (opcode / 16) % 16 && d
            == opcode % 16 && addr == opcode % 4096) by (bit_vector)
            requires
                c == (opcode & 0xF000) >> 12u16,
                x == (opcode & 0x0F00) >> 8u16,
                y == (opcode & 0x00F0) >> 4u16,
                d == opcode & 0x000F,
                addr == opcode & 0x0FFF,
        ;
        if opcode == 0 {
            Some(Outcome::Halted)
        } else if opcode == 0x00EE {
            self.ret()
        } else if c == 2 {
            self.call(addr)
        } else if c == 8 && d == 4 {
            self.add_xy(x as u8, y as u8);
            None
        } else {
            Some(Outcome::UnknownOpcode(opcode))
        }
    }

    /// Executes instructions from the current position until one of them
    /// stops execution, and reports why.
    pub fn run(&mut self) -> (r: Outcome)
        requires
            state_wf(old(self)@),
        ensures
            (final(self)@, r) == execute(old(self)@),
    {
        loop
            invariant
                state_wf(self@),
                execute(self@) == execute(old(self)@),
            decreases
                    65536 - digit(self@, 0),
                    65536 - digit(self@, 1),
                    65536 - digit(self@, 2),
                    65536 - digit(self@, 3),
                    65536 - digit(self@, 4),
                    65536 - digit(self@, 5),
                    65536 - digit(self@, 6),
                    65536 - digit(self@, 7),
                    65536 - digit(self@, 8),
                    65536 - digit(self@, 9),
                    65536 - digit(self@, 10),
                    65536 - digit(self@, 11),
                    65536 - digit(self@, 12),
                    65536 - digit(self@, 13),
                    65536 - digit(self@, 14),
                    65536 - digit(self@, 15),
                    65536 - digit(self@, 16),
        {
            let ghost before = self@;
            let out = self.step();
            proof {
                lemma_step_wf(before);
            }
            match out {
                Some(o) => {
                    return o;
                },
                None => {
                    proof {
                        lemma_execute_step(before);
                    }
                },
            }
        }
    }
}

/// The program of `load_and_run` ends halted with 45 in register 0.
proof fn lemma_call_program(s0: CpuState)
    requires
        state_wf(s0),
        s0.position == 0,
        s0.stack_pointer == 0,
        s0.registers[0] == 5,
        s0.registers[1] == 10,
        s0.memory[0] == 0x21 && s0.memory[1] == 0x00,
        s0.memory[2] == 0x21 && s0.memory[3] == 0x00,
        s0.memory[4] == 0x00 && s0.memory[5] == 0x00,
        s0.memory[0x100] == 0x80 && s0.memory[0x101] == 0x14,
        s0.memory[0x102] == 0x80 && s0.memory[0x103] == 0x14,
        s0.memory[0x104] == 0x00 && s0.memory[0x105] == 0xEE,
    ensures
        execute(s0).1 == Outcome::Halted,
        execute(s0).0.registers[0] == 45,
{
    let s1 = step(s0).0;
    lemma_execute_step(s0);
    lemma_step_wf(s0);
    assert(s1.position == 0x100 && s1.stack_pointer == 1 && s1.memory == s0.memory);
    let s2 = step(s1).0;
    lemma_execute_step(s1);
    lemma_step_wf(s1);
    assert(s2.position == 0x102 && s2.registers[0] == 15 && s2.registers[1] == 10);
    let s3 = step(s2).0;
    lemma_execute_step(s2);
    lemma_step_wf(s2);
    assert(s3.position == 0x104 && s3.registers[0] == 25 && s3.registers[1] == 10);
    let s4 = step(s3).0;
    lemma_execute_step(s3);
    lemma_step_wf(s3);
    assert(s4.position == 2 && s4.stack_pointer == 0 && s4.registers[0] == 25);
    let s5 = step(s4).0;
    lemma_execute_step(s4);
    lemma_step_wf(s4);
    assert(s5.position == 0x100 && s5.stack_pointer == 1 && s5.registers[1] == 10);
    let s6 = step(s5).0;
    lemma_execute_step(s5);
    lemma_step_wf(s5);
    assert(s6.position == 0x102 && s6.registers[0] == 35 && s6.registers[1] == 10);
    let s7 = step(s6).0;
    lemma_execute_step(s6);
    lemma_step_wf(s6);
    assert(s7.position == 0x104 && s7.registers[0] == 45);
    let s8 = step(s7).0;
    lemma_execute_step(s7);
    lemma_step_wf(s7);
    assert(s8.position == 4 && s8.stack_pointer == 0 && s8.registers[0] == 45);
    assert(step(s8).1 == Some(Outcome::Halted));
}

/// The program of `add_numbers` ends halted with 35 in register 0.
proof fn lemma_add_program(s0: CpuState)
    requires
        state_wf(s0),
        s0.position == 0,
        s0.stack_pointer == 0,
        s0.registers[0] == 5,
        s0.registers[1] == 10,
        s0.registers[2] == 10,
        s0.registers[3] == 10,
        s0.memory[0] == 0x80 && s0.memory[1] == 0x14,
        s0.memory[2] == 0x80 && s0.memory[3] == 0x24,
        s0.memory[4] == 0x80 && s0.memory[5] == 0x34,
        s0.memory[6] == 0x00 && s0.memory[7] == 0x00,
    ensures
        execute(s0).1 == Outcome::Halted,
        execute(s0).0.registers[0] == 35,
{
    let s1 = step(s0).0;
    lemma_execute_step(s0);
    lemma_step_wf(s0);
    assert(s1.position == 2 && s1.registers[0] == 15 && s1.registers[2] == 10 && s1.registers[3]
        == 10);
    let s2 = step(s1).0;
    lemma_execute_step(s1);
    lemma_step_wf(s1);
    assert(s2.position == 4 && s2.registers[0] == 25 && s2.registers[3] == 10);
    let s3 = step(s2).0;
    lemma_execute_step(s2);
    lemma_step_wf(s2);
    assert(s3.position == 6 && s3.registers[0] == 35);
    assert(step(s3).1 == Some(Outcome::Halted));
}

/// Loads a program that calls a routine adding register 1 to register 0 twice,
/// calls it twice, and runs it: 5 + (10 * 2) + (10 * 2). Returns register 0.
pub fn load_and_run() -> (r: u8)
    ensures
        r == 45,
{
    call_user_defined_functions()
}

fn call_user_defined_functions() -> (r: u8)
    ensures
        r == 45,
{
    let mut cpu = Cpu::new();
    cpu.registers[0] = 5;
    cpu.registers[1] = 10;
    // call the routine at 0x100, twice, then halt
    cpu.memory[0x000] = 0x21;
    cpu.memory[0x001] = 0x00;
    cpu.memory[0x002] = 0x21;
    cpu.memory[0x003] = 0x00;
    cpu.memory[0x004] = 0x00;
    cpu.memory[0x005] = 0x00;
    // the routine: add register 1 to register 0, twice, then return
    cpu.memory[0x100] = 0x80;
    cpu.memory[0x101] = 0x14;
    cpu.memory[0x102] = 0x80;
    cpu.memory[0x103] = 0x14;
    cpu.memory[0x104] = 0x00;
    cpu.memory[0x105] = 0xEE;
    proof {
        lemma_call_program(cpu@);
    }
    cpu.run();
    cpu.registers[0]
}

/// Runs three additions into register 0: 5 + 10 + 10 + 10. Returns register 0.
pub fn add_numbers() -> (r: u8)
    ensures
        r == 35,
{
    let mut cpu = Cpu::new();
    cpu.registers[0] = 5;
    cpu.registers[1] = 10;
    cpu.registers[2] = 10;
    cpu.registers[3] = 10;
    cpu.memory[0] = 0x80;
    cpu.memory[1] = 0x14;
    cpu.memory[2] = 0x80;
    cpu.memory[3] = 0x24;
    cpu.memory[4] = 0x80;
    cpu.memory[5] = 0x34;
    proof {
        lemma_add_program(cpu@);
    }
    cpu.run();
    cpu.registers[0]
}

} // verus!
