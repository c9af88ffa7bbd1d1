//! Task model extractors.

pub mod arrival;
pub mod event_rate;
pub mod execution;
pub mod job_count;
pub mod rbf;
pub mod rbf_old;
pub mod step_list;
pub mod suspension;
pub mod task_model;
