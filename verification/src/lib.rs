//! A small Forth-like evaluator: whitespace-separated tokens drive a numeric
//! stack machine, and the definition syntax `: name body ;` introduces new
//! words whose bodies may only use words that existed before them.

use vstd::prelude::*;

pub mod evaluator;
pub mod laws;
pub mod numbers;
pub mod semantics;
pub mod text;
pub mod tokenizer;

pub use evaluator::Definition;
pub use evaluator::Forth;
pub use semantics::Instruction;

verus! {

/// The operand type of the stack machine.
pub type Value = i32;

/// Everything that can go wrong while evaluating a chunk of input.
#[derive(Debug, PartialEq, Eq, Structural)]
pub enum Error {
    DivisionByZero,
    StackUnderflow,
    UnknownWord,
    InvalidWord,
}

/// The result of one evaluation call.
pub type ForthResult = Result<(), Error>;

} // verus!
