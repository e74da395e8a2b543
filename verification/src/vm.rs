//! The virtual machine: a fetch-decode-execute loop over a flat word
//! memory shared by code and data (no protection between the two),
//! with an operand stack, a return-address stack, and a halt-driven
//! terminal state. A run never panics: whatever cannot be carried out
//! — an empty-stack pop, an out-of-range address, a zero divisor, an
//! arithmetic overflow, an unknown opcode — is surfaced as a
//! structured `Fault` naming the faulting program counter, the
//! attempted operation and the stack depths, and leaves the machine
//! state untouched.

use vstd::prelude::*;

use crate::ir::{OP_ADD, OP_CALL, OP_DIV, OP_EQ, OP_GT, OP_GTE, OP_HALT, OP_JMP, OP_JMZ, OP_LOAD,
    OP_LOADC, OP_LT, OP_LTE, OP_MUL, OP_NEQ, OP_NOOP, OP_ODD, OP_RET, OP_STORE, OP_SUB, OP_WRITE,
    operand_of, tag_of};

verus! {

/// The number of words of machine memory.
pub const MEMORY_WORDS: usize = 2048;

/// The machine state as the contracts speak of it: program counter,
/// memory-address register (diagnostic only), operand stack (top
/// last), return-address stack (top last), word memory, and whether a
/// `HALT` has been executed.
pub ghost struct MachineV {
    pub pc: u32,
    pub mar: u32,
    pub stack: Seq<i32>,
    pub rstack: Seq<u32>,
    pub mem: Seq<i32>,
    pub halted: bool,
}

/// What a fault was: the operation that could not be carried out.
#[derive(Clone, Copy, Debug, PartialEq, Eq, Structural)]
pub enum FaultKind {
    /// The program counter left the memory range.
    FetchOutOfBounds,
    /// An instruction popped an empty operand stack.
    StackUnderflow,
    /// `RET` popped an empty return-address stack.
    ReturnStackUnderflow,
    /// `LOAD` or `STORE` addressed a word outside memory.
    MemoryOutOfBounds,
    /// `DIV` met a zero divisor.
    DivisionByZero,
    /// An arithmetic result left the 32-bit signed range.
    ArithmeticOverflow,
    /// The fetched word's high byte matches no opcode.
    UnknownOpcode,
}

/// A runtime fault: the faulting program counter, the opcode byte of
/// the attempted operation (0 when the fetch itself failed), what went
/// wrong, and both stack depths at the time of the fault.
#[derive(Clone, Copy, Debug, PartialEq, Eq, Structural)]
pub struct Fault {
    pub pc: u32,
    pub opcode: u32,
    pub kind: FaultKind,
    pub stack_depth: usize,
    pub return_depth: usize,
}

/// Why a load was rejected before execution began.
#[derive(Clone, Copy, Debug, PartialEq, Eq, Structural)]
pub enum LoadError {
    /// The encoded word count exceeds the memory size.
    ProgramTooLarge,
}

/// The fault raised in state `m` by the operation with opcode byte
/// `opcode`.
pub open spec fn fault_at(m: MachineV, opcode: u32, kind: FaultKind) -> Fault {
    Fault {
        pc: m.pc,
        opcode,
        kind,
        stack_depth: m.stack.len() as usize,
        return_depth: m.rstack.len() as usize,
    }
}

/// Truncating (toward zero) integer division, as the machine's `DIV`
/// computes it. `d` is never zero where this is applied.
pub open spec fn div_trunc(x: int, d: int) -> int {
    if x == 0 {
        0
    } else if x > 0 && d > 0 {
        x / d
    } else if x < 0 && d < 0 {
        (x * -1) / (d * -1)
    } else if x < 0 {
        ((x * -1) / d) * -1
    } else {
        (x / (d * -1)) * -1
    }
}

/// Truncating remainder, as Rust's `%` computes it. `d` is never zero
/// where this is applied.
pub open spec fn rem_trunc(x: int, d: int) -> int {
    if x == 0 {
        0
    } else if x > 0 && d > 0 {
        x % d
    } else if x < 0 && d < 0 {
        ((x * -1) % (d * -1)) * -1
    } else if x < 0 {
        ((x * -1) % d) * -1
    } else {
        x % (d * -1)
    }
}

/// A well-formed machine: its memory is the fixed word array the
/// constructor allocated.
pub open spec fn wf(m: MachineV) -> bool {
    m.mem.len() == MEMORY_WORDS
}

/// One instruction cycle on state `m`: the next state and the value
/// `WRITE` emitted, if any, or the fault that stops the run. A halted
/// machine is left as it is. Operand order is fixed: the first pop is
/// the right-hand operand `a`, the second the left-hand `b`.
pub open spec fn step_spec(m: MachineV) -> Result<(MachineV, Option<i32>), Fault> {
    if m.halted {
        Ok((m, None))
    } else if m.pc >= m.mem.len() {
        Err(fault_at(m, 0, FaultKind::FetchOutOfBounds))
    } else {
        let w = m.mem[m.pc as int] as u32;
        let op = tag_of(w);
        let arg = operand_of(w);
        let m1 = MachineV { pc: (m.pc + 1) as u32, ..m };
        if op == OP_JMP {
            Ok((MachineV { pc: arg, ..m1 }, None))
        } else if op == OP_JMZ {
            if m.stack.len() == 0 {
                Err(fault_at(m, op, FaultKind::StackUnderflow))
            } else {
                let v = m.stack.last();
                Ok((
                    MachineV {
                        pc: if v == 0 {
                            arg
                        } else {
                            m1.pc
                        },
                        stack: m.stack.drop_last(),
                        ..m1
                    },
                    None,
                ))
            }
        } else if op == OP_LOAD {
            if arg >= m.mem.len() {
                Err(fault_at(m, op, FaultKind::MemoryOutOfBounds))
            } else {
                Ok((MachineV { mar: arg, stack: m.stack.push(m.mem[arg as int]), ..m1 }, None))
            }
        } else if op == OP_LOADC {
            Ok((MachineV { stack: m.stack.push(arg as i32), ..m1 }, None))
        } else if op == OP_STORE {
            if m.stack.len() == 0 {
                Err(fault_at(m, op, FaultKind::StackUnderflow))
            } else if arg >= m.mem.len() {
                Err(fault_at(m, op, FaultKind::MemoryOutOfBounds))
            } else {
                Ok((
                    MachineV {
                        mar: arg,
                        stack: m.stack.drop_last(),
                        mem: m.mem.update(arg as int, m.stack.last()),
                        ..m1
                    },
                    None,
                ))
            }
        } else if op == OP_CALL {
            Ok((MachineV { pc: arg, rstack: m.rstack.push(m1.pc), ..m1 }, None))
        } else if op == OP_WRITE {
            if m.stack.len() == 0 {
                Err(fault_at(m, op, FaultKind::StackUnderflow))
            } else {
                Ok((MachineV { stack: m.stack.drop_last(), ..m1 }, Some(m.stack.last())))
            }
        } else if op == OP_ODD {
            if m.stack.len() == 0 {
                Err(fault_at(m, op, FaultKind::StackUnderflow))
            } else {
                let a = m.stack.last();
                let bit: i32 = if rem_trunc(a as int, 2) != 0 {
                    1
                } else {
                    0
                };
                Ok((MachineV { stack: m.stack.drop_last().push(bit), ..m1 }, None))
            }
        } else if op == OP_NOOP {
            Ok((m1, None))
        } else if op == OP_RET {
            if m.rstack.len() == 0 {
                Err(fault_at(m, op, FaultKind::ReturnStackUnderflow))
            } else {
                Ok((MachineV { pc: m.rstack.last(), rstack: m.rstack.drop_last(), ..m1 }, None))
            }
        } else if op == OP_HALT {
            Ok((MachineV { halted: true, ..m1 }, None))
        } else if op == OP_ADD || op == OP_SUB || op == OP_DIV || op == OP_MUL || op == OP_LT
            || op == OP_LTE || op == OP_GT || op == OP_GTE || op == OP_EQ || op == OP_NEQ {
            if m.stack.len() < 2 {
                Err(fault_at(m, op, FaultKind::StackUnderflow))
            } else {
                let a = m.stack.last();
                let b = m.stack[m.stack.len() - 2];
                let rest = m.stack.drop_last().drop_last();
                if op == OP_ADD {
                    if b + a < i32::MIN || b + a > i32::MAX {
                        Err(fault_at(m, op, FaultKind::ArithmeticOverflow))
                    } else {
                        Ok((MachineV { stack: rest.push((b + a) as i32), ..m1 }, None))
                    }
                } else if op == OP_SUB {
                    if b - a < i32::MIN || b - a > i32::MAX {
                        Err(fault_at(m, op, FaultKind::ArithmeticOverflow))
                    } else {
                        Ok((MachineV { stack: rest.push((b - a) as i32), ..m1 }, None))
                    }
                } else if op == OP_MUL {
                    if a * b < i32::MIN || a * b > i32::MAX {
                        Err(fault_at(m, op, FaultKind::ArithmeticOverflow))
                    } else {
                        Ok((MachineV { stack: rest.push((a * b) as i32), ..m1 }, None))
                    }
                } else if op == OP_DIV {
                    if a == 0 {
                        Err(fault_at(m, op, FaultKind::DivisionByZero))
                    } else if div_trunc(b as int, a as int) < i32::MIN || div_trunc(
                        b as int,
                        a as int,
                    ) > i32::MAX {
                        Err(fault_at(m, op, FaultKind::ArithmeticOverflow))
                    } else {
                        Ok((
                            MachineV {
                                stack: rest.push(div_trunc(b as int, a as int) as i32),
                                ..m1
                            },
                            None,
                        ))
                    }
                } else {
                    let truth = if op == OP_LT {
                        b < a
                    } else if op == OP_LTE {
                        b <= a
                    } else if op == OP_GT {
                        b > a
                    } else if op == OP_GTE {
                        b >= a
                    } else if op == OP_EQ {
                        b == a
                    } else {
                        b != a
                    };
                    let bit: i32 = if truth {
                        1
                    } else {
                        0
                    };
                    Ok((MachineV { stack: rest.push(bit), ..m1 }, None))
                }
            }
        } else {
            Err(fault_at(m, op, FaultKind::UnknownOpcode))
        }
    }
}

/// What `n` instruction cycles from state `m` leave behind: the state
/// reached, the values written in order, and the fault that stopped
/// the run early, if one did.
pub ghost struct StepsResult {
    pub m: MachineV,
    pub out: Seq<i32>,
    pub fault: Option<Fault>,
}

/// The values one cycle emits: none, or the one `WRITE` popped.
pub open spec fn emitted(o: Option<i32>) -> Seq<i32> {
    match o {
        None => Seq::empty(),
        Some(v) => seq![v],
    }
}

/// Run `n` instruction cycles from `m` (fewer if one faults; cycles on
/// a halted machine change nothing).
pub open spec fn run_steps(m: MachineV, n: nat) -> StepsResult
    decreases n,
{
    if n == 0 {
        StepsResult { m, out: Seq::empty(), fault: None }
    } else {
        match step_spec(m) {
            Err(f) => StepsResult { m, out: Seq::empty(), fault: Some(f) },
            Ok((m2, o)) => {
                let rest = run_steps(m2, (n - 1) as nat);
                StepsResult { m: rest.m, out: emitted(o) + rest.out, fault: rest.fault }
            },
        }
    }
}

/// Extending a fault-free run by one cycle appends that cycle's
/// effect.
proof fn lemma_run_steps_snoc(m: MachineV, n: nat)
    requires
        run_steps(m, n).fault is None,
    ensures
        run_steps(m, n + 1) == (match step_spec(run_steps(m, n).m) {
            Ok((m2, o)) => StepsResult {
                m: m2,
                out: run_steps(m, n).out + emitted(o),
                fault: None,
            },
            Err(f) => StepsResult { m: run_steps(m, n).m, out: run_steps(m, n).out, fault: Some(f) },
        }),
    decreases n,
{
    if n == 0 {
        match step_spec(m) {
            Ok((m2, o)) => {
                assert(run_steps(m2, 0nat) == StepsResult {
                    m: m2,
                    out: Seq::<i32>::empty(),
                    fault: None::<Fault>,
                });
                assert(run_steps(m, 1) == StepsResult {
                    m: m2,
                    out: emitted(o) + Seq::<i32>::empty(),
                    fault: None::<Fault>,
                });
                assert(emitted(o) + Seq::<i32>::empty() =~= Seq::<i32>::empty() + emitted(o));
            },
            Err(f) => {
                assert(run_steps(m, 0).out =~= Seq::<i32>::empty());
            },
        }
    } else {
        match step_spec(m) {
            Ok((m2, o)) => {
                lemma_run_steps_snoc(m2, (n - 1) as nat);
                match step_spec(run_steps(m2, (n - 1) as nat).m) {
                    Ok((m3, o2)) => {
                        assert(emitted(o) + (run_steps(m2, (n - 1) as nat).out + emitted(o2))
                            =~= (emitted(o) + run_steps(m2, (n - 1) as nat).out) + emitted(o2));
                    },
                    Err(_) => {},
                }
            },
            Err(_) => {},
        }
    }
}

/// Subtraction is not commutative, and the machine's operand order is
/// fixed: with `b` pushed first and `a` on top, `SUB` leaves `b - a`
/// on the stack — never `a - b`.
pub proof fn lemma_sub_operand_order(m: MachineV, b: i32, a: i32)
    requires
        !m.halted,
        m.pc < m.mem.len(),
        tag_of(m.mem[m.pc as int] as u32) == OP_SUB,
        m.stack.len() >= 2,
        b == m.stack[m.stack.len() - 2],
        a == m.stack.last(),
        i32::MIN <= b - a <= i32::MAX,
    ensures
        step_spec(m) == Ok::<(MachineV, Option<i32>), Fault>(
            (
                MachineV {
                    pc: (m.pc + 1) as u32,
                    stack: m.stack.drop_last().drop_last().push((b - a) as i32),
                    ..m
                },
                None,
            ),
        ),
{
}

/// The same ordering rule for division: with `b` pushed first and a
/// nonzero `a` on top, `DIV` leaves the truncated quotient `b / a` on
/// the stack — never `a / b`.
pub proof fn lemma_div_operand_order(m: MachineV, b: i32, a: i32)
    requires
        !m.halted,
        m.pc < m.mem.len(),
        tag_of(m.mem[m.pc as int] as u32) == OP_DIV,
        m.stack.len() >= 2,
        b == m.stack[m.stack.len() - 2],
        a == m.stack.last(),
        a != 0,
        !(b == i32::MIN && a == -1),
    ensures
        step_spec(m) == Ok::<(MachineV, Option<i32>), Fault>(
            (
                MachineV {
                    pc: (m.pc + 1) as u32,
                    stack: m.stack.drop_last().drop_last().push(
                        div_trunc(b as int, a as int) as i32,
                    ),
                    ..m
                },
                None,
            ),
        ),
{
    lemma_div_trunc_in_range(b, a);
}

/// Truncating division of 32-bit values overflows only at
/// `i32::MIN / -1`.
pub proof fn lemma_div_trunc_in_range(b: i32, a: i32)
    requires
        a != 0,
        !(b == i32::MIN && a == -1),
    ensures
        i32::MIN <= div_trunc(b as int, a as int) <= i32::MAX,
{
    let x = b as int;
    let d = a as int;
    if x > 0 && d > 0 {
        vstd::arithmetic::div_mod::lemma_div_pos_is_pos(x, d);
        vstd::arithmetic::div_mod::lemma_div_nonincreasing(x, d);
    } else if x < 0 && d < 0 {
        vstd::arithmetic::div_mod::lemma_div_pos_is_pos(x * -1, d * -1);
        if b == i32::MIN {
            vstd::arithmetic::div_mod::lemma_div_decreases(x * -1, d * -1);
        } else {
            vstd::arithmetic::div_mod::lemma_div_nonincreasing(x * -1, d * -1);
        }
    } else if x < 0 {
        vstd::arithmetic::div_mod::lemma_div_pos_is_pos(x * -1, d);
        vstd::arithmetic::div_mod::lemma_div_nonincreasing(x * -1, d);
    } else if x > 0 {
        vstd::arithmetic::div_mod::lemma_div_pos_is_pos(x, d * -1);
        vstd::arithmetic::div_mod::lemma_div_nonincreasing(x, d * -1);
    }
}

/// `ODD` pushes 1 exactly on mathematically odd values, negative ones
/// included: the truncating remainder by two is nonzero exactly when
/// the value is odd.
pub proof fn lemma_odd_means_odd(a: i32)
    ensures
        (rem_trunc(a as int, 2) != 0) <==> ((a as int) % 2 == 1),
{
    let x = a as int;
    vstd::arithmetic::div_mod::lemma_mod_division_less_than_divisor(x, 2);
    if x == 0 {
        vstd::arithmetic::div_mod::lemma_small_mod(0nat, 2nat);
    } else if x < 0 {
        let q = (x * -1) / 2;
        let r = (x * -1) % 2;
        vstd::arithmetic::div_mod::lemma_mod_division_less_than_divisor(x * -1, 2);
        vstd::arithmetic::div_mod::lemma_fundamental_div_mod(x * -1, 2);
        if r == 0 {
            assert(x == (q * -1) * 2 + 0);
            vstd::arithmetic::div_mod::lemma_fundamental_div_mod_converse_mod(x, 2, q * -1, 0);
        } else {
            assert(x == (q * -1 - 1) * 2 + 1);
            vstd::arithmetic::div_mod::lemma_fundamental_div_mod_converse_mod(
                x,
                2,
                q * -1 - 1,
                1,
            );
        }
    }
}

/// The two-valued run state: the only transition out of `Running` is
/// executing `HALT`, and none leads back.
enum State {
    Running,
    Halt,
}

/// The virtual machine. Code and data share the one flat memory; a
/// `STORE` into a code address overwrites instructions, by design.
pub struct VM {
    pc: u32,
    mar: u32,
    stack: Vec<i32>,
    return_stack: Vec<u32>,
    memory: Vec<i32>,
    state: State,
}

impl View for VM {
    type V = MachineV;

    closed spec fn view(&self) -> MachineV {
        MachineV {
            pc: self.pc,
            mar: self.mar,
            stack: self.stack@,
            rstack: self.return_stack@,
            mem: self.memory@,
            halted: match self.state {
                State::Running => false,
                State::Halt => true,
            },
        }
    }
}

impl VM {
    /// A fresh machine: zeroed memory and registers, empty stacks,
    /// running.
    pub fn new() -> (r: VM)
        ensures
            r@.pc == 0,
            r@.mar == 0,
            r@.stack == Seq::<i32>::empty(),
            r@.rstack == Seq::<u32>::empty(),
            r@.mem.len() == MEMORY_WORDS,
            forall|i: int| 0 <= i < MEMORY_WORDS ==> r@.mem[i] == 0i32,
            !r@.halted,
            wf(r@),
    {
        let mut memory: Vec<i32> = Vec::new();
        while memory.len() < MEMORY_WORDS
            invariant
                memory@.len() <= MEMORY_WORDS,
                forall|i: int| 0 <= i < memory@.len() ==> memory@[i] == 0i32,
            decreases MEMORY_WORDS - memory@.len(),
        {
            memory.push(0);
        }
        VM { pc: 0, mar: 0, stack: Vec::new(), return_stack: Vec::new(), memory, state: State::Running }
    }

    /// Copy `program` into memory starting at address 0, leaving the
    /// rest of memory and every register as they are. A program longer
    /// than memory is rejected whole, before anything is copied.
    #[verifier::loop_isolation(false)]
    pub fn load(&mut self, program: &Vec<u32>) -> (r: Result<(), LoadError>)
        ensures
            match r {
                Ok(()) => program@.len() <= old(self)@.mem.len() && final(self)@ == (MachineV {
                    mem: final(self)@.mem,
                    ..old(self)@
                }) && final(self)@.mem.len() == old(self)@.mem.len() && (forall|i: int|
                    0 <= i < program@.len() ==> final(self)@.mem[i] == program@[i] as i32) && (
                forall|i: int|
                    program@.len() <= i < old(self)@.mem.len() ==> final(self)@.mem[i] == old(
                        self,
                    )@.mem[i]),
                Err(e) => e == LoadError::ProgramTooLarge && program@.len() > old(self)@.mem.len()
                    && final(self)@ == old(self)@,
            },
    {
        if program.len() > self.memory.len() {
            return Err(LoadError::ProgramTooLarge);
        }
        let mut i: usize = 0;
        while i < program.len()
            invariant
                i <= program@.len(),
                self.memory@.len() == old(self)@.mem.len(),
                forall|j: int| 0 <= j < i ==> self.memory@[j] == program@[j] as i32,
                forall|j: int|
                    i <= j < self.memory@.len() ==> self.memory@[j] == old(self)@.mem[j],
                self.pc == old(self).pc,
                self.mar == old(self).mar,
                self.stack == old(self).stack,
                self.return_stack == old(self).return_stack,
                self@.halted == old(self)@.halted,
            decreases program@.len() - i,
        {
            self.memory[i] = #[verifier::truncate] (program[i] as i32);
            i = i + 1;
        }
        Ok(())
    }

    /// The current program counter.
    pub fn pc(&self) -> (r: u32)
        ensures
            r == self@.pc,
    {
        self.pc
    }

    /// Whether a `HALT` has been executed.
    pub fn is_halted(&self) -> (r: bool)
        ensures
            r == self@.halted,
    {
        matches!(self.state, State::Halt)
    }

    /// The word at `address`, or `None` outside memory.
    pub fn memory_at(&self, address: usize) -> (r: Option<i32>)
        ensures
            r == if address < self@.mem.len() {
                Some(self@.mem[address as int])
            } else {
                None::<i32>
            },
    {
        if address < self.memory.len() {
            Some(self.memory[address])
        } else {
            None
        }
    }

    /// The fault the current state raises for opcode byte `opcode`.
    fn fault(&self, opcode: u32, kind: FaultKind) -> (f: Fault)
        ensures
            f == fault_at(self@, opcode, kind),
    {
        Fault {
            pc: self.pc,
            opcode,
            kind,
            stack_depth: self.stack.len(),
            return_depth: self.return_stack.len(),
        }
    }

    /// One instruction cycle: fetch the word at the program counter,
    /// advance the counter, decode and dispatch. Returns the value
    /// `WRITE` emitted, if any. A fault leaves the machine exactly as
    /// it was; a halted machine is left untouched.
    pub fn step(&mut self) -> (r: Result<Option<i32>, Fault>)
        requires
            wf(old(self)@),
        ensures
            wf(final(self)@),
            match r {
                Ok(out) => step_spec(old(self)@) == Ok::<(MachineV, Option<i32>), Fault>(
                    (final(self)@, out),
                ),
                Err(f) => step_spec(old(self)@) == Err::<(MachineV, Option<i32>), Fault>(f)
                    && final(self)@ == old(self)@,
            },
    {
        if matches!(self.state, State::Halt) {
            return Ok(None);
        }
        let pc = self.pc;
        if pc as usize >= self.memory.len() {
            return Err(self.fault(0, FaultKind::FetchOutOfBounds));
        }
        let cell = #[verifier::truncate] (self.memory[pc as usize] as u32);
        let next_pc = pc + 1;
        let op = cell >> 24;
        let arg = cell & 0x00FF_FFFF;
        proof {
            assert(cell & 0x00FF_FFFF < 0x0100_0000u32) by (bit_vector);
        }
        if op == OP_JMP {
            self.pc = arg;
            Ok(None)
        } else if op == OP_JMZ {
            if self.stack.len() == 0 {
                return Err(self.fault(op, FaultKind::StackUnderflow));
            }
            let v = self.stack.pop().unwrap();
            self.pc = if v == 0 {
                arg
            } else {
                next_pc
            };
            Ok(None)
        } else if op == OP_LOAD {
            if arg as usize >= self.memory.len() {
                return Err(self.fault(op, FaultKind::MemoryOutOfBounds));
            }
            self.mar = arg;
            let v = self.memory[arg as usize];
            self.stack.push(v);
            self.pc = next_pc;
            Ok(None)
        } else if op == OP_LOADC {
            self.stack.push(arg as i32);
            self.pc = next_pc;
            Ok(None)
        } else if op == OP_STORE {
            if self.stack.len() == 0 {
                return Err(self.fault(op, FaultKind::StackUnderflow));
            }
            if arg as usize >= self.memory.len() {
                return Err(self.fault(op, FaultKind::MemoryOutOfBounds));
            }
            self.mar = arg;
            let v = self.stack.pop().unwrap();
            self.memory[arg as usize] = v;
            self.pc = next_pc;
            Ok(None)
        } else if op == OP_CALL {
            self.return_stack.push(next_pc);
            self.pc = arg;
            Ok(None)
        } else if op == OP_WRITE {
            if self.stack.len() == 0 {
                return Err(self.fault(op, FaultKind::StackUnderflow));
            }
            let v = self.stack.pop().unwrap();
            self.pc = next_pc;
            Ok(Some(v))
        } else if op == OP_ODD {
            if self.stack.len() == 0 {
                return Err(self.fault(op, FaultKind::StackUnderflow));
            }
            let a = self.stack.pop().unwrap();
            let rem = a.checked_rem(2).unwrap();
            let bit: i32 = if rem != 0 {
                1
            } else {
                0
            };
            self.stack.push(bit);
            self.pc = next_pc;
            Ok(None)
        } else if op == OP_NOOP {
            self.pc = next_pc;
            Ok(None)
        } else if op == OP_RET {
            if self.return_stack.len() == 0 {
                return Err(self.fault(op, FaultKind::ReturnStackUnderflow));
            }
            let a = self.return_stack.pop().unwrap();
            self.pc = a;
            Ok(None)
        } else if op == OP_HALT {
            self.pc = next_pc;
            self.state = State::Halt;
            Ok(None)
        } else if op == OP_ADD || op == OP_SUB || op == OP_DIV || op == OP_MUL || op == OP_LT
            || op == OP_LTE || op == OP_GT || op == OP_GTE || op == OP_EQ || op == OP_NEQ {
            if self.stack.len() < 2 {
                return Err(self.fault(op, FaultKind::StackUnderflow));
            }
            let a = self.stack[self.stack.len() - 1];
            let b = self.stack[self.stack.len() - 2];
            let res: i32 = if op == OP_ADD {
                match b.checked_add(a) {
                    Some(s) => s,
                    None => {
                        return Err(self.fault(op, FaultKind::ArithmeticOverflow));
                    },
                }
            } else if op == OP_SUB {
                match b.checked_sub(a) {
                    Some(s) => s,
                    None => {
                        return Err(self.fault(op, FaultKind::ArithmeticOverflow));
                    },
                }
            } else if op == OP_MUL {
                match a.checked_mul(b) {
                    Some(s) => s,
                    None => {
                        return Err(self.fault(op, FaultKind::ArithmeticOverflow));
                    },
                }
            } else if op == OP_DIV {
                if a == 0 {
                    return Err(self.fault(op, FaultKind::DivisionByZero));
                }
                match b.checked_div(a) {
                    Some(s) => s,
                    None => {
                        return Err(self.fault(op, FaultKind::ArithmeticOverflow));
                    },
                }
            } else {
                let truth = if op == OP_LT {
                    b < a
                } else if op == OP_LTE {
                    b <= a
                } else if op == OP_GT {
                    b > a
                } else if op == OP_GTE {
                    b >= a
                } else if op == OP_EQ {
                    b == a
                } else {
                    b != a
                };
                if truth {
                    1
                } else {
                    0
                }
            };
            self.stack.pop();
            self.stack.pop();
            self.stack.push(res);
            self.pc = next_pc;
            proof {
                assert(self.stack@ =~= old(self)@.stack.drop_last().drop_last().push(res));
            }
            Ok(None)
        } else {
            Err(self.fault(op, FaultKind::UnknownOpcode))
        }
    }

    /// Execute from the current state until `HALT`, a fault, or
    /// `max_cycles` instruction cycles, appending each value `WRITE`
    /// emits to `output` in execution order. A looping program would
    /// otherwise never return, so the cycle bound is explicit:
    /// `Ok(true)` says the machine halted, `Ok(false)` says the
    /// budget ran out first. On `Err` the machine stands exactly as
    /// the faulting instruction found it, the output up to the fault
    /// kept.
    #[verifier::loop_isolation(false)]
    pub fn run(&mut self, output: &mut Vec<i32>, max_cycles: u64) -> (r: Result<bool, Fault>)
        requires
            wf(old(self)@),
        ensures
            wf(final(self)@),
            match r {
                Ok(halted) => halted == final(self)@.halted,
                Err(_) => !final(self)@.halted,
            },
            final(output)@.take(old(output)@.len() as int) == old(output)@,
            exists|n: nat|
                n <= max_cycles && run_steps(old(self)@, n) == (StepsResult {
                    m: final(self)@,
                    out: final(output)@.skip(old(output)@.len() as int),
                    fault: match r {
                        Ok(_) => None::<Fault>,
                        Err(f) => Some(f),
                    },
                }) && (r == Ok::<bool, Fault>(false) ==> n == max_cycles),
    {
        let ghost m0: MachineV = old(self)@;
        let ghost out0: Seq<i32> = old(output)@;
        let ghost mut n: nat = 0nat;
        proof {
            assert(output@.skip(out0.len() as int) =~= Seq::<i32>::empty());
            assert(output@.take(out0.len() as int) =~= out0);
        }
        let mut used: u64 = 0;
        while used < max_cycles
            invariant
                wf(self@),
                used <= max_cycles,
                n == used,
                out0.len() <= output@.len(),
                output@.take(out0.len() as int) == out0,
                run_steps(m0, n) == (StepsResult {
                    m: self@,
                    out: output@.skip(out0.len() as int),
                    fault: None::<Fault>,
                }),
            decreases max_cycles - used,
        {
            if matches!(self.state, State::Halt) {
                proof {
                    assert(self@.halted);
                }
                return Ok(true);
            }
            proof {
                lemma_run_steps_snoc(m0, n);
            }
            let ghost before: Seq<i32> = output@;
            match self.step() {
                Ok(o) => {
                    if let Some(v) = o {
                        output.push(v);
                        proof {
                            assert(output@.take(out0.len() as int) =~= before.take(
                                out0.len() as int,
                            ));
                            assert(output@.skip(out0.len() as int) =~= before.skip(
                                out0.len() as int,
                            ) + emitted(o));
                        }
                    } else {
                        proof {
                            assert(output@.skip(out0.len() as int) =~= before.skip(
                                out0.len() as int,
                            ) + emitted(o));
                        }
                    }
                    proof {
                        n = n + 1;
                    }
                },
                Err(f) => {
                    return Err(f);
                },
            }
            used = used + 1;
        }
        Ok(matches!(self.state, State::Halt))
    }
}

} // verus!
