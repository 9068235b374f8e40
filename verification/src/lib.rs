//! An interpreter for a whitespace-only esoteric language: every instruction
//! is spelled with spaces, tabs and line breaks, and all other characters are
//! comments.  The crate parses source text into instructions, resolves symbolic
//! jump labels into instruction indices, and executes the result on a stack
//! machine with a sparse heap and a call stack.
pub mod parser;
pub mod symbols;
pub mod virtual_machine;
