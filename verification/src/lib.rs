//! A real-time task model extractor.
//!
//! The library turns a stream of scheduling and system-call events of a
//! thread into jobs, and the jobs into task models: execution-time bounds,
//! self-suspension bounds, arrival curves, periods and request-bound
//! functions.

pub mod text;
pub mod interval;
pub mod trace;
pub mod task;
pub mod io;
pub mod tracer;
pub mod processors;
pub mod context;
pub mod events;
pub mod utils;
pub mod job;
pub mod job_separator;
pub mod ir;
pub mod model_extractors;
