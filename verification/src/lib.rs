//! A verified interpreter for a minimal eight-instruction language operating
//! on an unbounded byte tape.
//!
//! The crate has two components, used in order: the [`translator`] turns raw
//! source bytes into an instruction list with loop jump targets resolved, and
//! the [`machine`] executes that list step by step against a growable tape,
//! consuming a buffered input stream and accumulating an output stream.

pub mod machine;
pub mod translator;

pub use machine::Brainfuck;
pub use machine::RunError;
pub use translator::Instruction;
pub use translator::LexError;
