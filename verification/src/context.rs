//! Run parameters of the tracer and of the extractors.

use crate::io::LimeOutputDirectory;
use crate::trace::writer::EventsFileFormat;
use std::time::Duration;
use vstd::prelude::*;

verus! {

/// All the parameters of a run.
pub struct LimeContext {
    /// Output directory.
    pub output_dir: LimeOutputDirectory,
    pub verbose: bool,
    /// The command to run and its arguments; empty for none.
    pub cmd_vec: Vec<String>,
    /// If true, all threads running under the tracked scheduling policies are
    /// traced. Otherwise, only the threads launched by the tracer and their
    /// children.
    pub trace_all: bool,
    /// If true, the best-effort policy is tracked too.
    pub trace_best_effort: bool,
    /// Rate limiter period.
    pub limiter_period: Duration,
    /// Rate limiter budget.
    pub limiter_budget: usize,
    /// If true, models are reported for all traced threads, even if there
    /// are none.
    pub all_threads: bool,
    /// Poll interval of the kernel ring buffer.
    pub ebpf_poll_interval: Duration,
    /// If true, RBFs are not updated until a system call job separator is
    /// detected.
    pub no_init_rbf_update: bool,
    /// RBFs are only extracted when set.
    pub enable_rbf: bool,
    /// Maximum number of demands kept by the RBF extractor.
    pub rbf_max_steps: usize,
    /// RBF horizon, 0 for none.
    pub rbf_horizon: u64,
    /// Minimum distance between consecutive RBF steps.
    pub rbf_min_sep: u64,
    /// Maximum number of consecutive jobs tracked by the WCET(n) extractor.
    pub wcet_n_max_len: usize,
    /// Maximum number of consecutive jobs tracked by arrival curve extractors.
    pub arrival_curve_max_len: usize,
    /// Batch size of the release period extractor.
    pub period_extractor_batch_size: usize,
    pub allow_task_priority_change: bool,
    pub allow_task_affinity_change: bool,
    pub tx_batch_size: usize,
    pub output_format: EventsFileFormat,
}

impl LimeContext {
    /// The command to run and its arguments, if the user gave one.
    pub fn get_cmd_vec(&self) -> (r: Option<&Vec<String>>)
        ensures
            self.cmd_vec@.len() == 0 ==> r is None,
            self.cmd_vec@.len() > 0 ==> (r matches Some(v) && v@ == self.cmd_vec@),
    {
        if self.cmd_vec.len() == 0 {
            None
        } else {
            Some(&self.cmd_vec)
        }
    }
}

} // verus!
