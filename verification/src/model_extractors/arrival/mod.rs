//! Job arrival model extractors.

use vstd::prelude::*;

pub mod arrival_curve;
pub mod periodic;
pub mod sporadic;

verus! {

/// What an arrival model extractor finds.
#[derive(Debug, Clone, PartialEq)]
pub enum ArrivalModel {
    /// Arrival curves represented with distance functions.
    ArrivalCurve {
        /// `dmins[i]`: the smallest time observed between `i + 2` arrivals.
        dmins: Vec<u64>,
        /// `dmaxs[i]`: the greatest time observed between `i + 2` arrivals.
        dmaxs: Vec<u64>,
    },
    /// Arrival curves with release intervals represented with distance functions.
    ArrivalCurveReleaseIntervals {
        dmins_lo: Vec<u64>,
        dmaxs_lo: Vec<u64>,
        dmins_hi: Vec<u64>,
        dmaxs_hi: Vec<u64>,
    },
    /// Sporadic arrivals, with a strictly positive minimal inter-arrival time.
    Sporadic { mit: u64 },
    /// Sporadic arrivals with release intervals.
    SporadicReleaseIntervals { mit_lo: u64, mit_hi: u64 },
    /// Periodic arrivals.
    Periodic(Periodic),
}

#[derive(Debug, Clone, Copy, PartialEq, Eq, Structural)]
pub enum Periodic {
    /// Periodic model with releases only.
    Release { period: u64, offset: u64, max_jitter: u64 },
    /// Periodic model extracted from arrival times.
    Arrival { period: u64, max_jitter: u64, offset: u64 },
    /// Periodic model with release intervals, certainly and possibly fitting.
    ReleaseIntervals {
        period_certainly: u64,
        offset_certainly: u64,
        max_jitter_certainly: u64,
        period_possibly: u64,
        offset_possibly: u64,
        max_jitter_possibly: u64,
    },
}

/// Arrival model extractor interface.
pub trait ArrivalModelExtractor {
    fn extract(&self) -> Option<ArrivalModel>;
}

} // verus!
