//! Opcodes of the tape language and the errors a run can end with.
use vstd::prelude::*;

verus! {

/// One decoded instruction. Adjustments carry a positive count (1 when not
/// merged); the two loop opcodes carry the index of their partner once the
/// brackets are resolved (0 before that).
#[derive(Clone, Copy, Debug, PartialEq, Eq, Structural)]
pub enum Instr {
    IncrDataByte(usize),
    DecrDataByte(usize),
    IncrDataPointer(usize),
    DecrDataPointer(usize),
    Print,
    Input,
    JumpForward(usize),
    JumpBackward(usize),
}

/// Every way in which building or running a program can fail.
#[derive(Clone, Copy, Debug, PartialEq, Eq, Structural)]
pub enum Error {
    /// A loop-end with no open loop-start before it, at this opcode index.
    UnmatchedClosedBracket(usize),
    /// The innermost loop-start that is never closed, at this opcode index.
    UnmatchedOpenBracket(usize),
    /// Under the checked pointer policy, a move would leave the tape.
    TapeBoundsExceeded,
    /// An input opcode ran after the input had run out.
    InputExhausted,
}

pub open spec fn is_open(op: Instr) -> bool {
    op is JumpForward
}

pub open spec fn is_close(op: Instr) -> bool {
    op is JumpBackward
}

/// A single-step adjustment: the opcodes that condensing merges.
pub open spec fn is_unit_step(op: Instr) -> bool {
    op == Instr::IncrDataByte(1) || op == Instr::DecrDataByte(1) || op == Instr::IncrDataPointer(1)
        || op == Instr::DecrDataPointer(1)
}

} // verus!
