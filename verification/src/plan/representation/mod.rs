//! Logical plan representation: identity keys, path algebra, scalar expressions, the
//! registry of caller functions, the frozen relational graph and the finalized plan.

pub mod expr;
pub mod id;
pub mod path;
pub mod plan;
pub mod path_extension;
pub mod registry;
pub mod relational;
