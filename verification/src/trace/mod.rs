//! Trace recording formats.

pub mod reader;
pub mod writer;
