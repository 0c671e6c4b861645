//! A minimal virtual machine for a tape-based language of eight symbols:
//! pointer moves, cell increment/decrement, byte output, byte input, and a
//! bracket-delimited loop construct. Source text is parsed into a flat
//! instruction sequence with precomputed jump offsets, which is then
//! interpreted against a byte tape with a movable pointer.

pub mod instruction;
pub mod state;
pub mod parser;
pub mod vm;
pub mod laws;

pub use instruction::Instruction;
pub use state::{Programme, MachineState, IoBuffer};
pub use parser::ParseError;
pub use vm::VmError;
