//! Streaming shell: the engine for the driver, plus the plan state that the driver's
//! element events update, and the result once the document has been read.

pub mod streaming;
