//! The execution engine: a stack machine over a resolved instruction
//! sequence, with an operand stack, a sparse integer-addressed heap and a
//! call stack.
//!
//! The machine is driven one instruction at a time: `step` executes the
//! instruction under the program counter and reports an effect.  Output
//! effects carry the value to print; input effects carry the target heap
//! address, and the host hands the value read back through `give_char` or
//! `give_number`.  `run` drives the machine against input given as bytes,
//! collecting the I/O trace; a host wanting real console I/O performs each
//! effect itself and loops.
//!
//! Every semantic rule is stated once, in `step_spec` over the abstract
//! machine state, and the executable engine is proved to follow it exactly.
use crate::symbols::Action;
use std::collections::HashMap;
use vstd::prelude::*;

verus! {

broadcast use vstd::std_specs::hash::group_hash_axioms;

/// An unrecoverable runtime fault.  The machine stops at the instruction
/// that faulted; a host reports it and discards the machine.
#[derive(Debug, Copy, Clone, PartialEq, Eq)]
pub enum Fault {
    /// An instruction needed more operands than the stack holds.
    StackUnderflow,
    /// `EndSubroutine` with no unreturned `Call`.
    CallStackUnderflow,
    /// `HeapRetrieve` of an address never stored.
    MissingHeapAddress(i64),
    /// `Divide` or `Modulo` with a zero divisor.
    DivideByZero,
    /// An arithmetic result outside the signed 64-bit range.
    Overflow,
    /// The program counter left the instruction sequence, or a jump target
    /// does not fit an index.
    ProgramCounterOutOfRange,
    /// A label definition survived to execution time: label resolution was
    /// skipped or bypassed.
    UnexpectedLabel(u64),
    /// A parse error survived to execution time.
    UnexpectedParseError,
    /// A read instruction found the input exhausted.
    EndOfInput,
}

/// What one executed instruction asks of the host.
#[derive(Debug, Copy, Clone, PartialEq, Eq)]
pub enum StepEffect {
    /// Nothing: execution goes on with the next instruction.
    Continue,
    /// The program ended normally.
    Halted,
    /// Print the byte as a character and flush.
    OutputChar(u8),
    /// Print the number in decimal and flush.
    OutputNumber(i64),
    /// Read one byte of input and store it at the address with `give_char`.
    ReadChar(i64),
    /// Read lines of input until one parses as a signed number and store it
    /// at the address with `give_number`.
    ReadNumber(i64),
    /// The machine faulted; execution cannot go on.
    Fault(Fault),
}

/// One entry of the I/O trace that `run` collects, in program order.
#[derive(Debug, Copy, Clone, PartialEq, Eq)]
pub enum IoEvent {
    /// A character was printed (as its byte).
    OutputChar(u8),
    /// A number was printed.
    OutputNumber(i64),
    /// A byte of input was consumed by `ReadChar`.
    InputChar(u8),
    /// A line of input was consumed and parsed by `ReadNumber`.
    InputNumber(i64),
    /// A line of input did not parse as a number; `ReadNumber` reported the
    /// problem and read another line.
    NumberRetry,
}

/// How a driven run ended.
#[derive(Debug, Copy, Clone, PartialEq, Eq)]
pub enum RunOutcome {
    /// The program executed `Halt`.
    Halted,
    /// The machine faulted.
    Faulted(Fault),
    /// The step budget ran out before the program ended.
    OutOfFuel,
}

/// The abstract state of the machine: the mathematical reading of a
/// [`WhitespaceVM`].
pub struct VmState {
    /// The operand stack, last element on top.
    pub stack: Seq<i64>,
    /// The sparse heap.
    pub heap: Map<i64, i64>,
    /// The saved return addresses, last element most recent.
    pub call_stack: Seq<usize>,
    /// The resolved instruction sequence.
    pub program: Seq<Action>,
    /// The index of the next instruction.
    pub pc: usize,
}

/// The semantics of one instruction: the state after executing the
/// instruction under the program counter, and the effect asked of the host.
/// A fault leaves the state exactly as it was when the fault was detected.
pub open spec fn step_spec(s: VmState) -> (VmState, StepEffect) {
    if s.pc >= s.program.len() {
        (s, StepEffect::Fault(Fault::ProgramCounterOutOfRange))
    } else {
        let next_pc = (s.pc + 1) as usize;
        match s.program[s.pc as int] {
            Action::StackPush(v) => (
                VmState { stack: s.stack.push(v), pc: next_pc, ..s },
                StepEffect::Continue,
            ),
            Action::StackDuplicate => if s.stack.len() == 0 {
                (s, StepEffect::Fault(Fault::StackUnderflow))
            } else {
                (
                    VmState { stack: s.stack.push(s.stack.last()), pc: next_pc, ..s },
                    StepEffect::Continue,
                )
            },
            Action::StackSwap => if s.stack.len() < 2 {
                (s, StepEffect::Fault(Fault::StackUnderflow))
            } else {
                let top = s.stack.last();
                let under = s.stack[s.stack.len() - 2];
                (
                    VmState {
                        stack: s.stack.drop_last().drop_last().push(top).push(under),
                        pc: next_pc,
                        ..s
                    },
                    StepEffect::Continue,
                )
            },
            Action::StackDiscard => if s.stack.len() == 0 {
                (s, StepEffect::Fault(Fault::StackUnderflow))
            } else {
                (VmState { stack: s.stack.drop_last(), pc: next_pc, ..s }, StepEffect::Continue)
            },
            Action::Add => if s.stack.len() < 2 {
                (s, StepEffect::Fault(Fault::StackUnderflow))
            } else {
                let right = s.stack.last();
                let left = s.stack[s.stack.len() - 2];
                match left.checked_add(right) {
                    None => (s, StepEffect::Fault(Fault::Overflow)),
                    Some(v) => (
                        VmState {
                            stack: s.stack.drop_last().drop_last().push(v),
                            pc: next_pc,
                            ..s
                        },
                        StepEffect::Continue,
                    ),
                }
            },
            Action::Subtract => if s.stack.len() < 2 {
                (s, StepEffect::Fault(Fault::StackUnderflow))
            } else {
                let right = s.stack.last();
                let left = s.stack[s.stack.len() - 2];
                match left.checked_sub(right) {
                    None => (s, StepEffect::Fault(Fault::Overflow)),
                    Some(v) => (
                        VmState {
                            stack: s.stack.drop_last().drop_last().push(v),
                            pc: next_pc,
                            ..s
                        },
                        StepEffect::Continue,
                    ),
                }
            },
            Action::Multiply => if s.stack.len() < 2 {
                (s, StepEffect::Fault(Fault::StackUnderflow))
            } else {
                let right = s.stack.last();
                let left = s.stack[s.stack.len() - 2];
                match left.checked_mul(right) {
                    None => (s, StepEffect::Fault(Fault::Overflow)),
                    Some(v) => (
                        VmState {
                            stack: s.stack.drop_last().drop_last().push(v),
                            pc: next_pc,
                            ..s
                        },
                        StepEffect::Continue,
                    ),
                }
            },
            Action::Divide => if s.stack.len() < 2 {
                (s, StepEffect::Fault(Fault::StackUnderflow))
            } else {
                let right = s.stack.last();
                let left = s.stack[s.stack.len() - 2];
                if right == 0 {
                    (s, StepEffect::Fault(Fault::DivideByZero))
                } else {
                    match left.checked_div(right) {
                        None => (s, StepEffect::Fault(Fault::Overflow)),
                        Some(v) => (
                            VmState {
                                stack: s.stack.drop_last().drop_last().push(v),
                                pc: next_pc,
                                ..s
                            },
                            StepEffect::Continue,
                        ),
                    }
                }
            },
            Action::Modulo => if s.stack.len() < 2 {
                (s, StepEffect::Fault(Fault::StackUnderflow))
            } else {
                let right = s.stack.last();
                let left = s.stack[s.stack.len() - 2];
                if right == 0 {
                    (s, StepEffect::Fault(Fault::DivideByZero))
                } else {
                    match left.checked_rem(right) {
                        None => (s, StepEffect::Fault(Fault::Overflow)),
                        Some(v) => (
                            VmState {
                                stack: s.stack.drop_last().drop_last().push(v),
                                pc: next_pc,
                                ..s
                            },
                            StepEffect::Continue,
                        ),
                    }
                }
            },
            Action::HeapStore => if s.stack.len() < 2 {
                (s, StepEffect::Fault(Fault::StackUnderflow))
            } else {
                let value = s.stack.last();
                let address = s.stack[s.stack.len() - 2];
                (
                    VmState {
                        stack: s.stack.drop_last().drop_last(),
                        heap: s.heap.insert(address, value),
                        pc: next_pc,
                        ..s
                    },
                    StepEffect::Continue,
                )
            },
            Action::HeapRetrieve => if s.stack.len() == 0 {
                (s, StepEffect::Fault(Fault::StackUnderflow))
            } else {
                let address = s.stack.last();
                if !s.heap.contains_key(address) {
                    (s, StepEffect::Fault(Fault::MissingHeapAddress(address)))
                } else {
                    (
                        VmState {
                            stack: s.stack.drop_last().push(s.heap[address]),
                            pc: next_pc,
                            ..s
                        },
                        StepEffect::Continue,
                    )
                }
            },
            Action::Call(t) => if t <= usize::MAX as u64 {
                (
                    VmState {
                        call_stack: s.call_stack.push(s.pc),
                        pc: t as usize,
                        ..s
                    },
                    StepEffect::Continue,
                )
            } else {
                (s, StepEffect::Fault(Fault::ProgramCounterOutOfRange))
            },
            Action::Jump(t) => if t <= usize::MAX as u64 {
                (VmState { pc: t as usize, ..s }, StepEffect::Continue)
            } else {
                (s, StepEffect::Fault(Fault::ProgramCounterOutOfRange))
            },
            Action::JumpIfZero(t) => if s.stack.len() == 0 {
                (s, StepEffect::Fault(Fault::StackUnderflow))
            } else if s.stack.last() == 0 {
                if t <= usize::MAX as u64 {
                    (
                        VmState { stack: s.stack.drop_last(), pc: t as usize, ..s },
                        StepEffect::Continue,
                    )
                } else {
                    (s, StepEffect::Fault(Fault::ProgramCounterOutOfRange))
                }
            } else {
                (VmState { stack: s.stack.drop_last(), pc: next_pc, ..s }, StepEffect::Continue)
            },
            Action::JumpIfNegative(t) => if s.stack.len() == 0 {
                (s, StepEffect::Fault(Fault::StackUnderflow))
            } else if s.stack.last() < 0 {
                if t <= usize::MAX as u64 {
                    (
                        VmState { stack: s.stack.drop_last(), pc: t as usize, ..s },
                        StepEffect::Continue,
                    )
                } else {
                    (s, StepEffect::Fault(Fault::ProgramCounterOutOfRange))
                }
            } else {
                (VmState { stack: s.stack.drop_last(), pc: next_pc, ..s }, StepEffect::Continue)
            },
            Action::EndSubroutine => if s.call_stack.len() == 0 {
                (s, StepEffect::Fault(Fault::CallStackUnderflow))
            } else {
                let saved = s.call_stack.last();
                if saved == usize::MAX {
                    (s, StepEffect::Fault(Fault::ProgramCounterOutOfRange))
                } else {
                    (
                        VmState {
                            call_stack: s.call_stack.drop_last(),
                            pc: (saved + 1) as usize,
                            ..s
                        },
                        StepEffect::Continue,
                    )
                }
            },
            Action::Halt => (s, StepEffect::Halted),
            Action::OutputChar => if s.stack.len() == 0 {
                (s, StepEffect::Fault(Fault::StackUnderflow))
            } else {
                (
                    VmState { stack: s.stack.drop_last(), pc: next_pc, ..s },
                    StepEffect::OutputChar(s.stack.last() as u8),
                )
            },
            Action::OutputNumber => if s.stack.len() == 0 {
                (s, StepEffect::Fault(Fault::StackUnderflow))
            } else {
                (
                    VmState { stack: s.stack.drop_last(), pc: next_pc, ..s },
                    StepEffect::OutputNumber(s.stack.last()),
                )
            },
            Action::ReadChar => if s.stack.len() == 0 {
                (s, StepEffect::Fault(Fault::StackUnderflow))
            } else {
                (
                    VmState { stack: s.stack.drop_last(), pc: next_pc, ..s },
                    StepEffect::ReadChar(s.stack.last()),
                )
            },
            Action::ReadNumber => if s.stack.len() == 0 {
                (s, StepEffect::Fault(Fault::StackUnderflow))
            } else {
                (
                    VmState { stack: s.stack.drop_last(), pc: next_pc, ..s },
                    StepEffect::ReadNumber(s.stack.last()),
                )
            },
            Action::Label(l) => (s, StepEffect::Fault(Fault::UnexpectedLabel(l))),
            Action::Error(_) => (s, StepEffect::Fault(Fault::UnexpectedParseError)),
        }
    }
}

/// Arithmetic law: the operand pushed first is the left operand.  With `a`
/// under `b` on the stack, `Subtract` pops `b` first and pushes `a - b`;
/// and `Divide` or `Modulo` with a zero on top faults instead of producing
/// a value.
pub proof fn lemma_subtract_operand_order(s: VmState, a: i64, b: i64)
    requires
        s.pc < s.program.len(),
        s.stack.len() >= 2,
        s.stack[s.stack.len() - 2] == a,
        s.stack.last() == b,
        i64::MIN <= a - b <= i64::MAX,
        s.program[s.pc as int] is Subtract,
    ensures
        step_spec(s).1 == StepEffect::Continue,
        step_spec(s).0.stack == s.stack.drop_last().drop_last().push((a - b) as i64),
{
}

/// Arithmetic law, continued: division and remainder by zero are faults.
pub proof fn lemma_divide_by_zero_faults(s: VmState)
    requires
        s.pc < s.program.len(),
        s.stack.len() >= 2,
        s.stack.last() == 0,
        s.program[s.pc as int] is Divide || s.program[s.pc as int] is Modulo,
    ensures
        step_spec(s).1 == StepEffect::Fault(Fault::DivideByZero),
        step_spec(s).0 == s,
{
}

/// Control-flow law, first half: `Call` saves the index of the call itself
/// and transfers control to the target, so the saved addresses form a stack
/// that grows by exactly the calling site.
pub proof fn lemma_call_saves_return(s: VmState, t: u64)
    requires
        s.pc < s.program.len(),
        s.program[s.pc as int] == Action::Call(t),
        t <= usize::MAX as u64,
    ensures
        step_spec(s).1 == StepEffect::Continue,
        step_spec(s).0.pc == t,
        step_spec(s).0.call_stack == s.call_stack.push(s.pc),
        step_spec(s).0.stack == s.stack,
{
}

/// Control-flow law, second half: `EndSubroutine` pops the most recent
/// saved address and resumes at the instruction immediately after it.
/// Together with `lemma_call_saves_return` this gives the round trip: a
/// `Call` at index `i` whose subroutine reaches `EndSubroutine` with the
/// call stack as the `Call` left it resumes at `i + 1`, and nested calls
/// return in last-in, first-out order.
pub proof fn lemma_return_resumes_after_call(s: VmState)
    requires
        s.pc < s.program.len(),
        s.program[s.pc as int] is EndSubroutine,
        s.call_stack.len() > 0,
        s.call_stack.last() < usize::MAX,
    ensures
        step_spec(s).1 == StepEffect::Continue,
        step_spec(s).0.pc == s.call_stack.last() + 1,
        step_spec(s).0.call_stack == s.call_stack.drop_last(),
        step_spec(s).0.stack == s.stack,
{
}

/// Control-flow law, discipline: no instruction other than `Call` and
/// `EndSubroutine` ever touches the call stack, so the saved addresses
/// between a call and its return are exactly those the call found.
pub proof fn lemma_call_stack_discipline(s: VmState)
    requires
        !(s.pc < s.program.len() && (s.program[s.pc as int] is Call || s.program[s.pc as int]
            is EndSubroutine)),
    ensures
        step_spec(s).0.call_stack == s.call_stack,
{
}

/// Control-flow law, round trip: a `Call` whose target is an
/// `EndSubroutine` resumes, after the two steps, at the instruction
/// immediately after the call, with call stack and operand stack exactly as
/// the call found them.
pub proof fn lemma_call_return_round_trip(s: VmState, t: u64)
    requires
        s.program.len() <= usize::MAX,
        s.pc < s.program.len(),
        s.pc < usize::MAX,
        s.program[s.pc as int] == Action::Call(t),
        t < s.program.len(),
        s.program[t as int] is EndSubroutine,
    ensures
        ({
            let (after_call, e1) = step_spec(s);
            let (after_return, e2) = step_spec(after_call);
            e1 == StepEffect::Continue && e2 == StepEffect::Continue && after_return.pc == s.pc + 1
                && after_return.call_stack == s.call_stack && after_return.stack == s.stack
                && after_return.heap == s.heap
        }),
{
    let (after_call, _) = step_spec(s);
    assert(after_call.call_stack.drop_last() =~= s.call_stack);
}

/// A virtual machine ready to execute a resolved program.
#[derive(Debug)]
pub struct WhitespaceVM {
    /// The sparse heap.
    pub heap: HashMap<i64, i64>,
    /// The operand stack, last element on top.
    pub stack: Vec<i64>,
    /// The saved return addresses, last element most recent.
    pub call_stack: Vec<usize>,
    /// The resolved instruction sequence.
    pub program: Vec<Action>,
    /// The index of the next instruction.
    pub program_pointer: usize,
}

impl View for WhitespaceVM {
    type V = VmState;

    open spec fn view(&self) -> VmState {
        VmState {
            stack: self.stack@,
            heap: self.heap@,
            call_stack: self.call_stack@,
            program: self.program@,
            pc: self.program_pointer,
        }
    }
}

impl WhitespaceVM {
    /// A fresh machine for the program: empty stacks, empty heap, program
    /// counter at the first instruction.
    pub fn new(program: Vec<Action>) -> (vm: WhitespaceVM)
        ensures
            vm@ == (VmState {
                stack: Seq::empty(),
                heap: Map::empty(),
                call_stack: Seq::empty(),
                program: program@,
                pc: 0,
            }),
    {
        WhitespaceVM {
            heap: HashMap::new(),
            stack: Vec::new(),
            call_stack: Vec::new(),
            program,
            program_pointer: 0,
        }
    }

    /// Executes the instruction under the program counter, exactly as
    /// `step_spec` says, and returns the effect asked of the host.
    pub fn step(&mut self) -> (e: StepEffect)
        ensures
            ({
                let (s2, eff) = step_spec(old(self)@);
                final(self)@ == s2 && e == eff
            }),
    {
        if self.program_pointer >= self.program.len() {
            return StepEffect::Fault(Fault::ProgramCounterOutOfRange);
        }
        let a = self.program[self.program_pointer];
        match a {
            Action::StackPush(v) => {
                self.stack.push(v);
                self.program_pointer = self.program_pointer + 1;
                StepEffect::Continue
            }
            Action::StackDuplicate => {
                if self.stack.len() == 0 {
                    return StepEffect::Fault(Fault::StackUnderflow);
                }
                let top = self.stack[self.stack.len() - 1];
                self.stack.push(top);
                self.program_pointer = self.program_pointer + 1;
                StepEffect::Continue
            }
            Action::StackSwap => {
                if self.stack.len() < 2 {
                    return StepEffect::Fault(Fault::StackUnderflow);
                }
                let top = self.stack.pop().unwrap();
                let under = self.stack.pop().unwrap();
                self.stack.push(top);
                self.stack.push(under);
                self.program_pointer = self.program_pointer + 1;
                StepEffect::Continue
            }
            Action::StackDiscard => {
                if self.stack.len() == 0 {
                    return StepEffect::Fault(Fault::StackUnderflow);
                }
                let _ = self.stack.pop();
                self.program_pointer = self.program_pointer + 1;
                StepEffect::Continue
            }
            Action::Add => {
                if self.stack.len() < 2 {
                    return StepEffect::Fault(Fault::StackUnderflow);
                }
                let right = self.stack[self.stack.len() - 1];
                let left = self.stack[self.stack.len() - 2];
                match left.checked_add(right) {
                    None => StepEffect::Fault(Fault::Overflow),
                    Some(v) => {
                        let _ = self.stack.pop();
                        let _ = self.stack.pop();
                        self.stack.push(v);
                        self.program_pointer = self.program_pointer + 1;
                        StepEffect::Continue
                    }
                }
            }
            Action::Subtract => {
                if self.stack.len() < 2 {
                    return StepEffect::Fault(Fault::StackUnderflow);
                }
                let right = self.stack[self.stack.len() - 1];
                let left = self.stack[self.stack.len() - 2];
                match left.checked_sub(right) {
                    None => StepEffect::Fault(Fault::Overflow),
                    Some(v) => {
                        let _ = self.stack.pop();
                        let _ = self.stack.pop();
                        self.stack.push(v);
                        self.program_pointer = self.program_pointer + 1;
                        StepEffect::Continue
                    }
                }
            }
            Action::Multiply => {
                if self.stack.len() < 2 {
                    return StepEffect::Fault(Fault::StackUnderflow);
                }
                let right = self.stack[self.stack.len() - 1];
                let left = self.stack[self.stack.len() - 2];
                match left.checked_mul(right) {
                    None => StepEffect::Fault(Fault::Overflow),
                    Some(v) => {
                        let _ = self.stack.pop();
                        let _ = self.stack.pop();
                        self.stack.push(v);
                        self.program_pointer = self.program_pointer + 1;
                        StepEffect::Continue
                    }
                }
            }
            Action::Divide => {
                if self.stack.len() < 2 {
                    return StepEffect::Fault(Fault::StackUnderflow);
                }
                let right = self.stack[self.stack.len() - 1];
                let left = self.stack[self.stack.len() - 2];
                if right == 0 {
                    return StepEffect::Fault(Fault::DivideByZero);
                }
                match left.checked_div(right) {
                    None => StepEffect::Fault(Fault::Overflow),
                    Some(v) => {
                        let _ = self.stack.pop();
                        let _ = self.stack.pop();
                        self.stack.push(v);
                        self.program_pointer = self.program_pointer + 1;
                        StepEffect::Continue
                    }
                }
            }
            Action::Modulo => {
                if self.stack.len() < 2 {
                    return StepEffect::Fault(Fault::StackUnderflow);
                }
                let right = self.stack[self.stack.len() - 1];
                let left = self.stack[self.stack.len() - 2];
                if right == 0 {
                    return StepEffect::Fault(Fault::DivideByZero);
                }
                match left.checked_rem(right) {
                    None => StepEffect::Fault(Fault::Overflow),
                    Some(v) => {
                        let _ = self.stack.pop();
                        let _ = self.stack.pop();
                        self.stack.push(v);
                        self.program_pointer = self.program_pointer + 1;
                        StepEffect::Continue
                    }
                }
            }
            Action::HeapStore => {
                if self.stack.len() < 2 {
                    return StepEffect::Fault(Fault::StackUnderflow);
                }
                let value = self.stack.pop().unwrap();
                let address = self.stack.pop().unwrap();
                self.heap.insert(address, value);
                self.program_pointer = self.program_pointer + 1;
                StepEffect::Continue
            }
            Action::HeapRetrieve => {
                if self.stack.len() == 0 {
                    return StepEffect::Fault(Fault::StackUnderflow);
                }
                let address = self.stack[self.stack.len() - 1];
                match self.heap.get(&address) {
                    None => StepEffect::Fault(Fault::MissingHeapAddress(address)),
                    Some(v) => {
                        let value = *v;
                        let _ = self.stack.pop();
                        self.stack.push(value);
                        self.program_pointer = self.program_pointer + 1;
                        StepEffect::Continue
                    }
                }
            }
            Action::Call(t) => {
                if t <= usize::MAX as u64 {
                    self.call_stack.push(self.program_pointer);
                    self.program_pointer = t as usize;
                    StepEffect::Continue
                } else {
                    StepEffect::Fault(Fault::ProgramCounterOutOfRange)
                }
            }
            Action::Jump(t) => {
                if t <= usize::MAX as u64 {
                    self.program_pointer = t as usize;
                    StepEffect::Continue
                } else {
                    StepEffect::Fault(Fault::ProgramCounterOutOfRange)
                }
            }
            Action::JumpIfZero(t) => {
                if self.stack.len() == 0 {
                    return StepEffect::Fault(Fault::StackUnderflow);
                }
                if self.stack[self.stack.len() - 1] == 0 {
                    if t <= usize::MAX as u64 {
                        let _ = self.stack.pop();
                        self.program_pointer = t as usize;
                        StepEffect::Continue
                    } else {
                        StepEffect::Fault(Fault::ProgramCounterOutOfRange)
                    }
                } else {
                    let _ = self.stack.pop();
                    self.program_pointer = self.program_pointer + 1;
                    StepEffect::Continue
                }
            }
            Action::JumpIfNegative(t) => {
                if self.stack.len() == 0 {
                    return StepEffect::Fault(Fault::StackUnderflow);
                }
                if self.stack[self.stack.len() - 1] < 0 {
                    if t <= usize::MAX as u64 {
                        let _ = self.stack.pop();
                        self.program_pointer = t as usize;
                        StepEffect::Continue
                    } else {
                        StepEffect::Fault(Fault::ProgramCounterOutOfRange)
                    }
                } else {
                    let _ = self.stack.pop();
                    self.program_pointer = self.program_pointer + 1;
                    StepEffect::Continue
                }
            }
            Action::EndSubroutine => {
                if self.call_stack.len() == 0 {
                    return StepEffect::Fault(Fault::CallStackUnderflow);
                }
                let saved = self.call_stack[self.call_stack.len() - 1];
                if saved == usize::MAX {
                    return StepEffect::Fault(Fault::ProgramCounterOutOfRange);
                }
                let _ = self.call_stack.pop();
                self.program_pointer = saved + 1;
                StepEffect::Continue
            }
            Action::Halt => StepEffect::Halted,
            Action::OutputChar => {
                if self.stack.len() == 0 {
                    return StepEffect::Fault(Fault::StackUnderflow);
                }
                let value = self.stack.pop().unwrap();
                self.program_pointer = self.program_pointer + 1;
                StepEffect::OutputChar(#[verifier::truncate] (value as u8))
            }
            Action::OutputNumber => {
                if self.stack.len() == 0 {
                    return StepEffect::Fault(Fault::StackUnderflow);
                }
                let value = self.stack.pop().unwrap();
                self.program_pointer = self.program_pointer + 1;
                StepEffect::OutputNumber(value)
            }
            Action::ReadChar => {
                if self.stack.len() == 0 {
                    return StepEffect::Fault(Fault::StackUnderflow);
                }
                let address = self.stack.pop().unwrap();
                self.program_pointer = self.program_pointer + 1;
                StepEffect::ReadChar(address)
            }
            Action::ReadNumber => {
                if self.stack.len() == 0 {
                    return StepEffect::Fault(Fault::StackUnderflow);
                }
                let address = self.stack.pop().unwrap();
                self.program_pointer = self.program_pointer + 1;
                StepEffect::ReadNumber(address)
            }
            Action::Label(l) => StepEffect::Fault(Fault::UnexpectedLabel(l)),
            Action::Error(_) => StepEffect::Fault(Fault::UnexpectedParseError),
        }
    }

    /// Stores the byte a `ReadChar` effect asked for at its target address.
    pub fn give_char(&mut self, address: i64, byte: u8)
        ensures
            final(self)@ == (VmState { heap: old(self)@.heap.insert(address, byte as i64), ..old(self)@ }),
    {
        self.heap.insert(address, byte as i64);
    }

    /// Stores the number a `ReadNumber` effect asked for at its target
    /// address.
    pub fn give_number(&mut self, address: i64, number: i64)
        ensures
            final(self)@ == (VmState { heap: old(self)@.heap.insert(address, number), ..old(self)@ }),
    {
        self.heap.insert(address, number);
    }
}

/// The bytes `str::trim` strips at either end of an ASCII line: space and
/// the control characters tab through carriage return.
pub open spec fn is_line_space(b: u8) -> bool {
    b == 32 || (9 <= b && b <= 13)
}

/// A decimal digit byte.
pub open spec fn is_digit(b: u8) -> bool {
    48 <= b && b <= 57
}

/// The line without its leading space bytes.
pub open spec fn trim_front(s: Seq<u8>) -> Seq<u8>
    decreases s.len(),
{
    if s.len() > 0 && is_line_space(s[0]) {
        trim_front(s.drop_first())
    } else {
        s
    }
}

/// The line without its trailing space bytes.
pub open spec fn trim_back(s: Seq<u8>) -> Seq<u8>
    decreases s.len(),
{
    if s.len() > 0 && is_line_space(s.last()) {
        trim_back(s.drop_last())
    } else {
        s
    }
}

/// The line without leading and trailing space bytes.
pub open spec fn spec_trim(s: Seq<u8>) -> Seq<u8> {
    trim_back(trim_front(s))
}

/// The value of a run of digit bytes, without bound.
pub open spec fn digits_value(ds: Seq<u8>) -> nat
    decreases ds.len(),
{
    if ds.len() == 0 {
        0nat
    } else {
        10 * digits_value(ds.drop_last()) + if ds.last() >= 48 {
            (ds.last() - 48) as nat
        } else {
            0nat
        }
    }
}

/// Whether every byte of the run is a decimal digit.
pub open spec fn all_digits(ds: Seq<u8>) -> bool {
    forall|i: int| 0 <= i < ds.len() ==> is_digit(#[trigger] ds[i])
}

/// What a line of input means to `ReadNumber`: trimmed of surrounding
/// spaces, an optional `+` or `-` sign, then at least one digit and nothing
/// else, with the value inside the signed 64-bit range; any other line is
/// rejected and read again.
pub open spec fn spec_line_number(line: Seq<u8>) -> Option<i64> {
    let t = spec_trim(line);
    if t.len() == 0 {
        None
    } else {
        let negative = t[0] == 45;
        let ds = if t[0] == 43 || t[0] == 45 {
            t.drop_first()
        } else {
            t
        };
        if ds.len() == 0 {
            None
        } else if !all_digits(ds) {
            None
        } else {
            let v = digits_value(ds);
            if negative {
                if v <= 0x8000_0000_0000_0000nat {
                    Some((0 - v) as i64)
                } else {
                    None
                }
            } else {
                if v <= 0x7FFF_FFFF_FFFF_FFFFnat {
                    Some(v as i64)
                } else {
                    None
                }
            }
        }
    }
}

proof fn lemma_trim_front_skip(s: Seq<u8>, k: int)
    requires
        0 <= k <= s.len(),
        forall|i: int| 0 <= i < k ==> is_line_space(#[trigger] s[i]),
        k == s.len() || !is_line_space(s[k]),
    ensures
        trim_front(s) == s.skip(k),
    decreases k,
{
    if k == 0 {
        assert(s.skip(0) =~= s);
    } else {
        lemma_trim_front_skip(s.drop_first(), k - 1);
        assert(s.drop_first().skip(k - 1) =~= s.skip(k));
    }
}

proof fn lemma_trim_back_take(s: Seq<u8>, k: int)
    requires
        0 <= k <= s.len(),
        forall|i: int| k <= i < s.len() ==> is_line_space(#[trigger] s[i]),
        k == 0 || !is_line_space(s[k - 1]),
    ensures
        trim_back(s) == s.take(k),
    decreases s.len(),
{
    if k == s.len() {
        if s.len() > 0 {
            assert(s.take(k) =~= s);
        } else {
            assert(s.take(0) =~= s);
        }
    } else {
        assert(is_line_space(s[s.len() - 1]));
        lemma_trim_back_take(s.drop_last(), k);
        assert(s.drop_last().take(k) =~= s.take(k));
    }
}

/// Scans a byte range for a run of digits: `None` when a non-digit occurs,
/// else an accumulator equal to the run's value wherever that value is small
/// enough to matter, and past it otherwise.
fn digit_run_value(input: &Vec<u8>, from: usize, to: usize) -> (r: Option<u128>)
    requires
        from <= to <= input@.len(),
    ensures
        match r {
            None => !(forall|i: int| from <= i < to ==> is_digit(#[trigger] input@[i])),
            Some(acc) => {
                let v = digits_value(input@.subrange(from as int, to as int));
                &&& forall|i: int| from <= i < to ==> is_digit(#[trigger] input@[i])
                &&& v <= 0x8000_0000_0000_0000nat ==> acc == v
                &&& v > 0x8000_0000_0000_0000nat ==> acc > 0x8000_0000_0000_0000u128
                &&& acc <= 0x8000_0000_0000_0000u128 * 10 + 9
            },
        },
{
    let ghost ds = input@.subrange(from as int, to as int);
    let mut acc: u128 = 0;
    let mut i: usize = from;
    while i < to
        invariant
            from <= i <= to <= input@.len(),
            ds == input@.subrange(from as int, to as int),
            forall|j: int| from <= j < i ==> is_digit(#[trigger] input@[j]),
            acc <= 0x8000_0000_0000_0000u128 * 10 + 9,
            digits_value(ds.take(i - from)) <= 0x8000_0000_0000_0000nat ==> acc == digits_value(
                ds.take(i - from),
            ),
            digits_value(ds.take(i - from)) > 0x8000_0000_0000_0000nat ==> acc
                > 0x8000_0000_0000_0000u128,
        decreases to - i,
    {
        let b: u8 = input[i];
        if b < 48 || b > 57 {
            return None;
        }
        proof {
            assert(ds.take(i + 1 - from).drop_last() =~= ds.take(i - from));
            assert(ds.take(i + 1 - from).last() == input@[i as int]);
        }
        let d: u128 = (b - 48) as u128;
        if acc <= 0x8000_0000_0000_0000u128 {
            acc = acc * 10 + d;
        }
        i = i + 1;
    }
    proof {
        assert(ds.take(to - from) =~= ds);
    }
    Some(acc)
}

/// Parses the byte range `[from, to)` of `input` as `ReadNumber` parses one
/// line, exactly as `spec_line_number` says.
#[verifier::rlimit(50)]
pub fn parse_number_range(input: &Vec<u8>, from: usize, to: usize) -> (r: Option<i64>)
    requires
        from <= to <= input@.len(),
    ensures
        r == spec_line_number(input@.subrange(from as int, to as int)),
{
    let ghost line = input@.subrange(from as int, to as int);
    let mut lo: usize = from;
    while lo < to && (input[lo] == 32 || (input[lo] >= 9 && input[lo] <= 13))
        invariant
            from <= lo <= to <= input@.len(),
            line == input@.subrange(from as int, to as int),
            forall|i: int| from <= i < lo ==> is_line_space(#[trigger] input@[i]),
        decreases to - lo,
    {
        lo = lo + 1;
    }
    let mut hi: usize = to;
    while hi > lo && (input[hi - 1] == 32 || (input[hi - 1] >= 9 && input[hi - 1] <= 13))
        invariant
            from <= lo <= hi <= to <= input@.len(),
            line == input@.subrange(from as int, to as int),
            forall|i: int| hi <= i < to ==> is_line_space(#[trigger] input@[i]),
        decreases hi - lo,
    {
        hi = hi - 1;
    }
    proof {
        lemma_trim_front_skip(line, lo - from);
        assert(line.skip(lo - from) =~= input@.subrange(lo as int, to as int));
        lemma_trim_back_take(input@.subrange(lo as int, to as int), hi - lo);
        assert(input@.subrange(lo as int, to as int).take(hi - lo) =~= input@.subrange(
            lo as int,
            hi as int,
        ));
        assert(spec_trim(line) == input@.subrange(lo as int, hi as int));
    }
    if lo == hi {
        return None;
    }
    let first: u8 = input[lo];
    let negative = first == 45;
    let ds_lo = if first == 43 || first == 45 {
        lo + 1
    } else {
        lo
    };
    let ghost ds = input@.subrange(ds_lo as int, hi as int);
    proof {
        assert(spec_trim(line)[0] == input@[lo as int]);
        assert(spec_trim(line).drop_first() =~= input@.subrange(lo + 1, hi as int));
        assert(ds == (if spec_trim(line)[0] == 43 || spec_trim(line)[0] == 45 {
            spec_trim(line).drop_first()
        } else {
            spec_trim(line)
        }));
    }
    if ds_lo == hi {
        return None;
    }
    match digit_run_value(input, ds_lo, hi) {
        None => {
            proof {
                assert(!(forall|i: int| ds_lo <= i < hi ==> is_digit(#[trigger] input@[i])));
                let j = choose|j: int| ds_lo <= j < hi && !is_digit(#[trigger] input@[j]);
                assert(ds[j - ds_lo] == input@[j]);
                assert(!is_digit(ds[j - ds_lo]));
                assert(!all_digits(ds));
            }
            None
        }
        Some(acc) => {
            proof {
                assert forall|k: int| 0 <= k < ds.len() implies is_digit(#[trigger] ds[k]) by {
                    assert(ds[k] == input@[ds_lo + k]);
                }
                assert(all_digits(ds));
            }
            if negative {
                if acc <= 0x8000_0000_0000_0000u128 {
                    let m: u64 = acc as u64;
                    if m == 0x8000_0000_0000_0000u64 {
                        Some(i64::MIN)
                    } else {
                        Some(-(m as i64))
                    }
                } else {
                    None
                }
            } else {
                if acc <= 0x7FFF_FFFF_FFFF_FFFFu128 {
                    Some(acc as i64)
                } else {
                    None
                }
            }
        }
    }
}

/// Parses a whole line of input as `ReadNumber` does: `Some` exactly when
/// the line, trimmed of surrounding spaces, is an optional sign followed by
/// digits whose value fits a signed 64-bit integer.
pub fn parse_number_line(line: &Vec<u8>) -> (r: Option<i64>)
    ensures
        r == spec_line_number(line@),
{
    proof {
        assert(line@.subrange(0, line@.len() as int) =~= line@);
    }
    parse_number_range(line, 0, line.len())
}

/// Splits input at its first line break: the line before it (the break
/// itself excluded) and the bytes after it.  Without a line break the whole
/// input is the line, as a read at the end of input yields.
pub open spec fn take_line(input: Seq<u8>) -> (Seq<u8>, Seq<u8>)
    decreases input.len(),
{
    if input.len() == 0 {
        (Seq::empty(), Seq::empty())
    } else if input[0] == 10 {
        (Seq::empty(), input.drop_first())
    } else {
        let (l, r) = take_line(input.drop_first());
        (seq![input[0]] + l, r)
    }
}

proof fn lemma_take_line_at(input: Seq<u8>, k: int)
    requires
        0 <= k <= input.len(),
        forall|j: int| 0 <= j < k ==> input[j] != 10,
        k == input.len() || input[k] == 10,
    ensures
        take_line(input) == (
            input.take(k),
            if k == input.len() {
                Seq::<u8>::empty()
            } else {
                input.skip(k + 1)
            },
        ),
    decreases input.len(),
{
    if input.len() == 0 {
        assert(input.take(0) =~= Seq::<u8>::empty());
    } else if input[0] == 10 {
        assert(input.take(0) =~= Seq::<u8>::empty());
        assert(input.skip(1) =~= input.drop_first());
    } else {
        lemma_take_line_at(input.drop_first(), k - 1);
        assert(seq![input[0]] + input.drop_first().take(k - 1) =~= input.take(k));
        if k < input.len() {
            assert(input.drop_first().skip(k) =~= input.skip(k + 1));
        }
    }
}

/// The retry loop of one `ReadNumber`: lines are consumed until one parses,
/// each rejected line reported in the trace and costing one unit of fuel;
/// the parsed value lands at the target address and the run goes on.
pub open spec fn read_number_spec(s: VmState, address: i64, input: Seq<u8>, fuel: nat) -> (
    Seq<IoEvent>,
    RunOutcome,
    VmState,
)
    decreases fuel, 1int,
{
    if fuel == 0 {
        (Seq::empty(), RunOutcome::OutOfFuel, s)
    } else {
        let (line, rest) = take_line(input);
        match spec_line_number(line) {
            Some(n) => {
                let s2 = VmState { heap: s.heap.insert(address, n), ..s };
                let (t, o, sf) = run_spec(s2, rest, fuel);
                (seq![IoEvent::InputNumber(n)] + t, o, sf)
            }
            None => {
                let (t, o, sf) = read_number_spec(s, address, rest, (fuel - 1) as nat);
                (seq![IoEvent::NumberRetry] + t, o, sf)
            }
        }
    }
}

/// A whole run from a state: the I/O trace in program order, how the run
/// ended, and the final state.  Each executed instruction, and each rejected
/// input line, costs one unit of fuel; a diverging program runs out of fuel
/// instead of ending.  Output lands in the trace the moment its instruction
/// executes, so everything printed stands in the trace before any later
/// input event: a host that performs the effects in order shows every
/// prompt before the read it precedes.
pub open spec fn run_spec(s: VmState, input: Seq<u8>, fuel: nat) -> (
    Seq<IoEvent>,
    RunOutcome,
    VmState,
)
    decreases fuel, 0int,
{
    if fuel == 0 {
        (Seq::empty(), RunOutcome::OutOfFuel, s)
    } else {
        let (s2, e) = step_spec(s);
        match e {
            StepEffect::Continue => run_spec(s2, input, (fuel - 1) as nat),
            StepEffect::Halted => (Seq::empty(), RunOutcome::Halted, s2),
            StepEffect::Fault(f) => (Seq::empty(), RunOutcome::Faulted(f), s2),
            StepEffect::OutputChar(b) => {
                let (t, o, sf) = run_spec(s2, input, (fuel - 1) as nat);
                (seq![IoEvent::OutputChar(b)] + t, o, sf)
            }
            StepEffect::OutputNumber(n) => {
                let (t, o, sf) = run_spec(s2, input, (fuel - 1) as nat);
                (seq![IoEvent::OutputNumber(n)] + t, o, sf)
            }
            StepEffect::ReadChar(address) => if input.len() == 0 {
                (Seq::empty(), RunOutcome::Faulted(Fault::EndOfInput), s2)
            } else {
                let s3 = VmState { heap: s2.heap.insert(address, input[0] as i64), ..s2 };
                let (t, o, sf) = run_spec(s3, input.drop_first(), (fuel - 1) as nat);
                (seq![IoEvent::InputChar(input[0])] + t, o, sf)
            },
            StepEffect::ReadNumber(address) => read_number_spec(s2, address, input, (fuel - 1) as nat),
        }
    }
}

/// Drives the machine against input given as bytes, collecting the I/O
/// trace, until the program halts, faults, or the fuel budget runs out:
/// exactly the run that `run_spec` describes.
pub fn run(vm: &mut WhitespaceVM, input: &Vec<u8>, fuel: u64) -> (r: (Vec<IoEvent>, RunOutcome))
    ensures
        ({
            let (trace, outcome, s) = run_spec(old(vm)@, input@, fuel as nat);
            r.0@ == trace && r.1 == outcome && final(vm)@ == s
        }),
{
    let mut trace: Vec<IoEvent> = Vec::new();
    let mut cursor: usize = 0;
    let mut fuel_left: u64 = fuel;
    proof {
        assert(input@.skip(0) =~= input@);
    }
    loop
        invariant
            cursor <= input@.len(),
            ({
                let (t, o, sf) = run_spec(vm@, input@.skip(cursor as int), fuel_left as nat);
                let (ft, fo, fs) = run_spec(old(vm)@, input@, fuel as nat);
                ft == trace@ + t && fo == o && fs == sf
            }),
        decreases fuel_left,
    {
        if fuel_left == 0 {
            proof {
                assert(trace@ + Seq::<IoEvent>::empty() =~= trace@);
            }
            return (trace, RunOutcome::OutOfFuel);
        }
        fuel_left = fuel_left - 1;
        let ghost rest_input = input@.skip(cursor as int);
        match vm.step() {
            StepEffect::Continue => {}
            StepEffect::Halted => {
                proof {
                    assert(trace@ + Seq::<IoEvent>::empty() =~= trace@);
                }
                return (trace, RunOutcome::Halted);
            }
            StepEffect::Fault(f) => {
                proof {
                    assert(trace@ + Seq::<IoEvent>::empty() =~= trace@);
                }
                return (trace, RunOutcome::Faulted(f));
            }
            StepEffect::OutputChar(b) => {
                proof {
                    let (t, o, sf) = run_spec(vm@, rest_input, fuel_left as nat);
                    assert(trace@ + (seq![IoEvent::OutputChar(b)] + t) =~= trace@.push(
                        IoEvent::OutputChar(b),
                    ) + t);
                }
                trace.push(IoEvent::OutputChar(b));
            }
            StepEffect::OutputNumber(n) => {
                proof {
                    let (t, o, sf) = run_spec(vm@, rest_input, fuel_left as nat);
                    assert(trace@ + (seq![IoEvent::OutputNumber(n)] + t) =~= trace@.push(
                        IoEvent::OutputNumber(n),
                    ) + t);
                }
                trace.push(IoEvent::OutputNumber(n));
            }
            StepEffect::ReadChar(address) => {
                if cursor < input.len() {
                    let b = input[cursor];
                    cursor = cursor + 1;
                    vm.give_char(address, b);
                    proof {
                        assert(rest_input[0] == b);
                        assert(input@.skip(cursor as int) =~= rest_input.drop_first());
                        let (t, o, sf) = run_spec(vm@, input@.skip(cursor as int), fuel_left as nat);
                        assert(trace@ + (seq![IoEvent::InputChar(b)] + t) =~= trace@.push(
                            IoEvent::InputChar(b),
                        ) + t);
                    }
                    trace.push(IoEvent::InputChar(b));
                } else {
                    proof {
                        assert(rest_input.len() == 0);
                        assert(trace@ + Seq::<IoEvent>::empty() =~= trace@);
                    }
                    return (trace, RunOutcome::Faulted(Fault::EndOfInput));
                }
            }
            StepEffect::ReadNumber(address) => {
                let ghost fuel_at_read = fuel_left;
                loop
                    invariant_except_break
                        fuel_left <= fuel_at_read,
                        cursor <= input@.len(),
                        ({
                            let (t, o, sf) = read_number_spec(
                                vm@,
                                address,
                                input@.skip(cursor as int),
                                fuel_left as nat,
                            );
                            let (ft, fo, fs) = run_spec(old(vm)@, input@, fuel as nat);
                            ft == trace@ + t && fo == o && fs == sf
                        }),
                    ensures
                        fuel_left <= fuel_at_read,
                        cursor <= input@.len(),
                        ({
                            let (t, o, sf) = run_spec(
                                vm@,
                                input@.skip(cursor as int),
                                fuel_left as nat,
                            );
                            let (ft, fo, fs) = run_spec(old(vm)@, input@, fuel as nat);
                            ft == trace@ + t && fo == o && fs == sf
                        }),
                    decreases fuel_left,
                {
                    if fuel_left == 0 {
                        proof {
                            assert(trace@ + Seq::<IoEvent>::empty() =~= trace@);
                        }
                        return (trace, RunOutcome::OutOfFuel);
                    }
                    let ghost line_input = input@.skip(cursor as int);
                    let mut nl: usize = cursor;
                    while nl < input.len() && input[nl] != 10
                        invariant
                            cursor <= nl <= input@.len(),
                            forall|j: int| cursor <= j < nl ==> input@[j] != 10,
                        decreases input@.len() - nl,
                    {
                        nl = nl + 1;
                    }
                    proof {
                        lemma_take_line_at(line_input, nl - cursor);
                        assert(line_input.take(nl - cursor) =~= input@.subrange(
                            cursor as int,
                            nl as int,
                        ));
                        if nl < input@.len() {
                            assert(line_input.skip(nl - cursor + 1) =~= input@.skip(nl + 1));
                        } else {
                            assert(input@.skip(nl as int) =~= Seq::<u8>::empty());
                        }
                    }
                    let parsed = parse_number_range(input, cursor, nl);
                    cursor = if nl < input.len() {
                        nl + 1
                    } else {
                        nl
                    };
                    match parsed {
                        Some(n) => {
                            vm.give_number(address, n);
                            proof {
                                let (t, o, sf) = run_spec(
                                    vm@,
                                    input@.skip(cursor as int),
                                    fuel_left as nat,
                                );
                                assert(trace@ + (seq![IoEvent::InputNumber(n)] + t) =~= trace@.push(
                                    IoEvent::InputNumber(n),
                                ) + t);
                            }
                            trace.push(IoEvent::InputNumber(n));
                            break;
                        }
                        None => {
                            fuel_left = fuel_left - 1;
                            proof {
                                let (t, o, sf) = read_number_spec(
                                    vm@,
                                    address,
                                    input@.skip(cursor as int),
                                    fuel_left as nat,
                                );
                                assert(trace@ + (seq![IoEvent::NumberRetry] + t) =~= trace@.push(
                                    IoEvent::NumberRetry,
                                ) + t);
                            }
                            trace.push(IoEvent::NumberRetry);
                        }
                    }
                }
            }
        }
    }
}

} // verus!
