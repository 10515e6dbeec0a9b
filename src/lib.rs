//! A virtual machine for the eight-instruction tape language: lexing,
//! bracket resolution, run condensing and a step-wise execution engine.
use vstd::prelude::*;

pub mod opcode;
pub mod lexer;
pub mod resolver;
pub mod condenser;
pub mod machine;
pub mod equivalence;

pub use opcode::{Instr, Error};
pub use machine::{Machine, PointerPolicy, Step, Run, RunStatus, DEFAULT_TAPE_LENGTH};

verus! {

} // verus!
