//! A compiler and interpreter pair for the classic eight-instruction tape
//! language: source text is compiled into a flat opcode sequence with loop
//! brackets resolved to absolute jump targets, and the result is executed
//! against a fixed-size, wrap-around tape of byte cells.

pub mod compile;
pub mod machine;
pub mod opcode;
pub mod semantics;

pub use machine::{Program, STEP_LIMIT};
pub use opcode::{Error, Opcode, TAPE_LEN};
