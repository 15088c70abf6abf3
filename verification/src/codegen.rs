//! Code generation: from a checked syntax tree to the intermediate
//! representation.

mod expressions;
mod matching;
mod program;
pub mod state;
mod statements;

pub use state::Codegen;
