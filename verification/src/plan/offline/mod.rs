//! Offline (full-document) backend: the reference evaluator of plans, with the same
//! logical meaning as the streaming path.

pub mod dom;
pub mod eval;
pub mod path;
pub mod preorder;
pub mod relational;
pub mod until;
pub mod axes;
