//! Public Matcher API and chain DSL (steps and validated patterns).

pub mod match_pattern;
pub mod matcher;
pub mod step;
