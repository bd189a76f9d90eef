//! A small regular-expression engine: postfix patterns are compiled into a
//! flat instruction program, which is run by a lockstep NFA simulation.

pub mod compiler;
pub mod language;
pub mod laws;
pub mod matcher;
pub mod program;
pub mod regex;

pub use compiler::MalformedPattern;
pub use program::Instruction;
pub use regex::Regex;
