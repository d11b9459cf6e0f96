//! An interpreter for the eight-symbol tape-machine language: a compiler from
//! source text to resolved instructions, and a step-wise execution engine over
//! a fixed tape of byte cells.

pub mod instruction;
pub mod program;
pub mod compiler;
pub mod engine;
pub mod laws;
pub mod collapse;
