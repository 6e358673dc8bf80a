//! A minimal flat-memory computer: an instruction set, an execution engine,
//! and a two-pass assembler that turns a small textual language into the
//! engine's binary memory image.

pub mod cpu;
pub mod linker;
pub mod opcode;
pub mod tokens;
