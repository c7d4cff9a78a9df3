//! Ancestry DFA runtime: compile chains, mint ids, decide which callbacks run.

pub mod program;
pub mod symbol;
pub mod engine;
