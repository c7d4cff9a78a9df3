//! Streaming HTML element matching over ancestry chains.

pub mod regex_spec;
pub mod regex_lang;
pub mod general_regex;
pub mod element_view;
pub mod matcher;
pub mod engine;
pub mod plan;
