//! A verified interpreter for the classic eight-instruction tape language.
//!
//! `semantics` holds the mathematical model: bracket depth and matching,
//! the small-step execution relation, and lemmas about both. `vm` holds
//! the executable machine: the bracket pre-scan that builds the jump map,
//! and the fetch-execute loop, each proved against the model.

pub mod semantics;
pub mod vm;

pub use vm::BFVM;
pub use vm::RunOutcome;
pub use vm::VmError;
