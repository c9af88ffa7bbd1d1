//! Periodic arrival models.

pub mod arrival;

use crate::events::ClockId;
use crate::job_separator::JobSeparator;
use vstd::prelude::*;

verus! {

/// What a period is extracted from.
#[derive(Debug, Clone, Copy, PartialEq, Eq, Structural)]
pub enum PeriodSource {
    /// The arrivals of the jobs, as `arrival::DiffPeriodicExtractor` reads them.
    OnArrival,
    /// The releases of the jobs, analysed in batches.
    OnRelease,
}

/// The source of periods for jobs that `sep` separates: their arrivals
/// when they sleep until an absolute time of the monotonic clock, their
/// releases otherwise.
pub open spec fn spec_period_source(sep: JobSeparator) -> PeriodSource {
    if sep == (JobSeparator::ClockNanosleep { clock_id: ClockId::ClockMonotonic, abs_time: true }) {
        PeriodSource::OnArrival
    } else {
        PeriodSource::OnRelease
    }
}

/// The source of periods for jobs that `sep` separates: see
/// `spec_period_source`.
pub fn period_source(sep: &JobSeparator) -> (r: PeriodSource)
    ensures
        r == spec_period_source(*sep),
{
    match sep {
        JobSeparator::ClockNanosleep { clock_id: ClockId::ClockMonotonic, abs_time: true } => PeriodSource::OnArrival,
        _ => PeriodSource::OnRelease,
    }
}

} // verus!
