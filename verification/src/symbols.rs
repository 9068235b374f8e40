//! The vocabulary of the language: the three whitespace tokens and the
//! instruction set that programs are parsed into.
use vstd::prelude::*;

verus! {

/// The three significant characters of a source text: everything else is a
/// comment.  `Return` stands for a line break.
#[derive(Debug, Copy, Clone, PartialEq, Eq)]
pub enum Token {
    Return,
    Space,
    Tab,
}

/// One instruction of a program.  Flow-control instructions carry a label id
/// as parsed; after label resolution the same variants carry a direct index
/// into the resolved instruction sequence.
#[derive(Debug, Copy, Clone, PartialEq, Eq)]
pub enum Action {
    /// Push the value onto the operand stack.
    StackPush(i64),
    /// Duplicate the top value of the operand stack.
    StackDuplicate,
    /// Swap the top two values of the operand stack.
    StackSwap,
    /// Discard the top value of the operand stack.
    StackDiscard,
    /// Pop right, pop left, push `left + right`.
    Add,
    /// Pop right, pop left, push `left - right`.
    Subtract,
    /// Pop right, pop left, push `left * right`.
    Multiply,
    /// Pop right, pop left, push the truncating quotient `left / right`.
    Divide,
    /// Pop right, pop left, push the remainder of `left / right`.
    Modulo,
    /// Pop a value, pop an address, store the value at the address.
    HeapStore,
    /// Pop an address, push the value stored there.
    HeapRetrieve,
    /// Define the label here; removed by label resolution.
    Label(u64),
    /// Call the subroutine at the label, remembering where to return.
    Call(u64),
    /// Jump to the label unconditionally.
    Jump(u64),
    /// Pop a value and jump to the label if it is zero.
    JumpIfZero(u64),
    /// Pop a value and jump to the label if it is negative.
    JumpIfNegative(u64),
    /// Return to just after the most recent unreturned `Call`.
    EndSubroutine,
    /// Stop execution; the only normal way a program ends.
    Halt,
    /// Pop a value and print its low eight bits as a character.
    OutputChar,
    /// Pop a value and print it in decimal.
    OutputNumber,
    /// Pop an address, read one byte of input, store it at the address.
    ReadChar,
    /// Pop an address, read lines of input until one parses as a signed
    /// number, store that number at the address.
    ReadNumber,
    /// An unrecognized token sequence, with a short description.  Valid only
    /// between parsing and label resolution; fatal if executed.
    Error(&'static str),
}

} // verus!
