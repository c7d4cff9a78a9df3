//! Relational query plans over HTML: representation, builder, offline evaluation and
//! the streaming lowering onto the engine.

pub mod builder;
pub mod lower;
pub mod offline;
pub mod physical;
pub mod representation;
pub mod runtime;
pub mod shell;
pub mod test_util;
