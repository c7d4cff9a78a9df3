//! Streaming lowering: logical plan -> engine subscriptions and physical kernels.
//!
//! Flat downward expands come first (`bind_down`).

pub mod bind_down;
pub mod compile;
