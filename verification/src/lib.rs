//! A verified interpreter for the classic eight-instruction tape-machine
//! language: a compiler that resolves bracket jump targets, and a machine
//! that executes the resolved program on a circular byte tape.

pub mod machine;
pub mod program;

pub use machine::run;
pub use machine::run_limited;
pub use machine::Machine;
pub use machine::TAPE_LEN;
pub use program::parse;
pub use program::Instruction;
pub use program::ParseError;
