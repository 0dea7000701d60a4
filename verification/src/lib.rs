//! A simulator for a crane-and-conveyor puzzle machine: a crane moves over a
//! row of box stacks under a small program of guarded instructions.

pub mod interp;
pub mod laws;
pub mod model;
pub mod program;
pub mod stack;
pub mod symbols;
pub mod text;

pub use symbols::Box;
pub use symbols::IfColor;
pub use symbols::Instruction;
pub use symbols::OpCode;
pub use interp::CbInterpret;
pub use model::FinishState;
pub use model::Machine;
pub use model::StepState;
pub use text::EncodingError;
