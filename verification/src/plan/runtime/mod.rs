//! Streaming runtime state of physical plans: the fold accumulator and the return cell.

pub mod fold;
