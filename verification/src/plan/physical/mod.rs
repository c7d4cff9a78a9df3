//! Kernels of the streaming plan: downward birth gating, scope-tree ancestry and
//! activation frames.

pub mod down;
pub mod frames;
pub mod scope_tree;
