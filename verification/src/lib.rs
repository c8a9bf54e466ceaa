//! Verified core of a compiler that translates the stack-based bytecode of
//! the Move virtual machine into the structured assembly AST of the Miden VM.
//!
//! The source bytecode expresses control flow with forward and backward
//! jumps; the target accepts only structured forms (straight-line code,
//! `if/else`, and `while`).  The library therefore
//!
//! - partitions a function's bytecode into basic blocks and classifies each
//!   block's single outgoing edge ([`cfg`]), keeping both maps sorted in the
//!   label order ([`label`], [`label_map`]),
//! - decides reachability over the partially built edge map ([`reach`]),
//! - emits a structured target AST from the finished graph ([`compiler`],
//!   [`masm`]), and
//! - proves the structural laws every accepted graph satisfies
//!   ([`cfg_laws`]).

pub mod cfg;
pub mod cfg_laws;
pub mod compiler;
pub mod instr;
pub mod label;
pub mod label_map;
pub mod masm;
pub mod reach;
