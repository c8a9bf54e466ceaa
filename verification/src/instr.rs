//! The instruction shapes the control-flow analysis recognizes.
//!
//! The analysis distinguishes conditional branches, unconditional branches
//! and function terminators; every other instruction is opaque to it and
//! falls through to its successor.  The opaque instructions carried here are
//! the ones the opcode translator knows about, plus a few that it does not
//! (those surface an `UnsupportedOpcode` error when a block containing them
//! is emitted).

use vstd::prelude::*;

verus! {

/// One bytecode instruction of the source language.  Branch destinations are
/// indices into the enclosing function's instruction buffer.
#[derive(Debug, Clone, Copy, PartialEq, Eq, Structural)]
pub enum Instr {
    /// Pop a boolean; jump to the destination if it is true, else fall through.
    BrTrue(usize),
    /// Pop a boolean; jump to the destination if it is false, else fall through.
    BrFalse(usize),
    /// Unconditional jump to the destination.
    Branch(usize),
    /// Return from the function.
    Ret,
    /// Abort the function.
    Abort,
    Add,
    Sub,
    Mul,
    Div,
    Mod,
    LdU32(u32),
    LdU64(u64),
    Eq,
    Neq,
    Le,
    Pop,
    MoveLoc(u8),
    StLoc(u8),
    CopyLoc(u8),
    Call(u16),
}

/// Whether an instruction is a branch of any kind (conditional or not).
pub open spec fn is_jump(i: Instr) -> bool {
    i is BrTrue || i is BrFalse || i is Branch
}

/// Whether an instruction is a conditional branch.
pub open spec fn is_cond(i: Instr) -> bool {
    i is BrTrue || i is BrFalse
}

/// The destination of a branch instruction.
pub open spec fn jump_target(i: Instr) -> int
    recommends
        is_jump(i),
{
    match i {
        Instr::BrTrue(d) => d as int,
        Instr::BrFalse(d) => d as int,
        Instr::Branch(d) => d as int,
        _ => 0,
    }
}

/// Whether an instruction ends the function (it has no successor).
pub open spec fn is_terminator(i: Instr) -> bool {
    i is Ret || i is Abort
}

impl Instr {
    /// Whether this instruction is a branch of any kind.
    pub fn classify_jump(&self) -> (r: bool)
        ensures
            r == is_jump(*self),
    {
        matches!(self, Instr::BrTrue(_) | Instr::BrFalse(_) | Instr::Branch(_))
    }

    /// Whether this instruction is a conditional branch.
    pub fn classify_cond(&self) -> (r: bool)
        ensures
            r == is_cond(*self),
    {
        matches!(self, Instr::BrTrue(_) | Instr::BrFalse(_))
    }
}

} // verus!
