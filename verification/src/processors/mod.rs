//! Event processors.

pub mod extract_job;
