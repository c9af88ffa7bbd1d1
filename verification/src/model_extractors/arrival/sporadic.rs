//! From the raw distance models of arrivals to the arrival models reported.
//!
//! The delta-min and delta-max models index distances by the number of
//! events they span, starting at none; the reported curves drop the first
//! two entries of a delta-min model and the last two of a delta-max model,
//! and move each value one unit towards the inside.

use vstd::prelude::*;

use super::ArrivalModel;

verus! {

/// `x - 1`, or 0 for 0.
pub open spec fn dec_sat(x: u64) -> u64 {
    if x > 0 {
        (x - 1) as u64
    } else {
        0
    }
}

/// `x + 1`, or `u64::MAX` for `u64::MAX`.
pub open spec fn inc_sat(x: u64) -> u64 {
    if x < u64::MAX {
        (x + 1) as u64
    } else {
        u64::MAX
    }
}

/// A delta-min model without its first two entries, each value lowered by one.
pub open spec fn trimmed_mins(s: Seq<u64>) -> Seq<u64>
    recommends
        s.len() >= 2,
{
    Seq::new((s.len() - 2) as nat, |i: int| dec_sat(s[i + 2]))
}

/// A delta-max model without its last two entries (if it has them), each
/// value raised by one.
pub open spec fn trimmed_maxs(s: Seq<u64>) -> Seq<u64> {
    let n: int = if s.len() >= 2 {
        s.len() - 2
    } else {
        0
    };
    Seq::new(n as nat, |i: int| inc_sat(s[i]))
}

/// Whether every value is 0 (true of an empty sequence).
pub open spec fn all_zero(s: Seq<u64>) -> bool {
    forall|i: int| 0 <= i < s.len() ==> s[i] == 0
}

/// Drops the first two entries of a delta-min model and lowers each
/// remaining value by one (0 stays 0).
pub fn trim_and_shift_sub(values: Vec<u64>) -> (r: Vec<u64>)
    requires
        values@.len() >= 2,
    ensures
        r@ == trimmed_mins(values@),
{
    let mut r: Vec<u64> = Vec::new();
    let mut i: usize = 2;
    while i < values.len()
        invariant
            2 <= i <= values@.len(),
            r@ == trimmed_mins(values@).take(i - 2),
        decreases values@.len() - i,
    {
        r.push(values[i].saturating_sub(1));
        i += 1;
        proof {
            assert(r@ =~= trimmed_mins(values@).take(i - 2));
        }
    }
    proof {
        assert(r@ =~= trimmed_mins(values@));
    }
    r
}

/// Drops the last two entries of a delta-max model (all of a shorter one)
/// and raises each remaining value by one (`u64::MAX` stays).
pub fn trim_and_shift_add(values: Vec<u64>) -> (r: Vec<u64>)
    ensures
        r@ == trimmed_maxs(values@),
{
    let n: usize = values.len().saturating_sub(2);
    let mut r: Vec<u64> = Vec::new();
    let mut i: usize = 0;
    while i < n
        invariant
            n == trimmed_maxs(values@).len(),
            n <= values@.len(),
            0 <= i <= n,
            r@ == trimmed_maxs(values@).take(i as int),
        decreases n - i,
    {
        r.push(values[i].saturating_add(1));
        i += 1;
        proof {
            assert(r@ =~= trimmed_maxs(values@).take(i as int));
        }
    }
    proof {
        assert(r@ =~= trimmed_maxs(values@));
    }
    r
}

/// Whether every value is 0.
pub fn is_all_zero(values: &Vec<u64>) -> (r: bool)
    ensures
        r == all_zero(values@),
{
    let mut i: usize = 0;
    while i < values.len()
        invariant
            0 <= i <= values@.len(),
            forall|j: int| 0 <= j < i ==> values@[j] == 0,
        decreases values@.len() - i,
    {
        if values[i] != 0 {
            return false;
        }
        i += 1;
    }
    true
}

/// The arrival curve of exact arrivals, from the raw delta-min and
/// delta-max models: none when every reported maximal distance is 0.
pub fn arrival_curve_model(dmins_model: Vec<u64>, dmaxs_model: Vec<u64>) -> (r: Option<ArrivalModel>)
    requires
        dmins_model@.len() >= 2,
    ensures
        all_zero(trimmed_maxs(dmaxs_model@)) ==> r is None,
        !all_zero(trimmed_maxs(dmaxs_model@)) ==> (r matches Some(ArrivalModel::ArrivalCurve { dmins, dmaxs })
            && dmins@ == trimmed_mins(dmins_model@) && dmaxs@ == trimmed_maxs(dmaxs_model@)),
{
    let dmins = trim_and_shift_sub(dmins_model);
    let dmaxs = trim_and_shift_add(dmaxs_model);
    if is_all_zero(&dmaxs) {
        None
    } else {
        Some(ArrivalModel::ArrivalCurve { dmins, dmaxs })
    }
}

/// The arrival curve of release intervals, from the raw models of the
/// lower and upper bounds: none when every reported maximal distance of
/// both bounds is 0.
pub fn arrival_curve_intervals_model(
    dmins_lo_model: Vec<u64>,
    dmaxs_lo_model: Vec<u64>,
    dmins_hi_model: Vec<u64>,
    dmaxs_hi_model: Vec<u64>,
) -> (r: Option<ArrivalModel>)
    requires
        dmins_lo_model@.len() >= 2,
        dmins_hi_model@.len() >= 2,
    ensures
        (all_zero(trimmed_maxs(dmaxs_lo_model@)) && all_zero(trimmed_maxs(dmaxs_hi_model@))) ==> r is None,
        !(all_zero(trimmed_maxs(dmaxs_lo_model@)) && all_zero(trimmed_maxs(dmaxs_hi_model@))) ==> (
        r matches Some(ArrivalModel::ArrivalCurveReleaseIntervals { dmins_lo, dmaxs_lo, dmins_hi, dmaxs_hi })
            && dmins_lo@ == trimmed_mins(dmins_lo_model@) && dmaxs_lo@ == trimmed_maxs(dmaxs_lo_model@)
            && dmins_hi@ == trimmed_mins(dmins_hi_model@) && dmaxs_hi@ == trimmed_maxs(dmaxs_hi_model@)),
{
    let dmins_lo = trim_and_shift_sub(dmins_lo_model);
    let dmaxs_lo = trim_and_shift_add(dmaxs_lo_model);
    let dmins_hi = trim_and_shift_sub(dmins_hi_model);
    let dmaxs_hi = trim_and_shift_add(dmaxs_hi_model);
    if is_all_zero(&dmaxs_lo) && is_all_zero(&dmaxs_hi) {
        None
    } else {
        Some(ArrivalModel::ArrivalCurveReleaseIntervals { dmins_lo, dmaxs_lo, dmins_hi, dmaxs_hi })
    }
}

/// The minimal inter-arrival time in a raw delta-min model: its entry for
/// two events, lowered by one, if it has one.
pub fn mit_of_model(dmins_model: &Vec<u64>) -> (r: Option<u64>)
    ensures
        dmins_model@.len() > 2 ==> r == Some(dec_sat(dmins_model@[2])),
        dmins_model@.len() <= 2 ==> r is None,
{
    if dmins_model.len() > 2 {
        Some(dmins_model[2].saturating_sub(1))
    } else {
        None
    }
}

/// The minimal separation of `n` events in a reported delta-min curve:
/// 0 for fewer than two events, else the curve's entry for `n`, if any.
pub fn min_separation_in(dmins: &Vec<u64>, n: usize) -> (r: Option<u64>)
    ensures
        n < 2 ==> r == Some(0u64),
        n >= 2 && n - 2 < dmins@.len() ==> r == Some(dmins@[n - 2]),
        n >= 2 && n - 2 >= dmins@.len() ==> r is None,
{
    if n < 2 {
        Some(0)
    } else if n - 2 < dmins.len() {
        Some(dmins[n - 2])
    } else {
        None
    }
}

/// The sporadic model: from the bounds of the minimal inter-arrival time
/// of release intervals when there are some (none if both are 0), else
/// from the exact one (none if absent or 0).
pub fn sporadic_model(release_intervals: Option<(u64, u64)>, mit: Option<u64>) -> (r: Option<ArrivalModel>)
    ensures
        r == match release_intervals {
            Some((lo, hi)) => if lo == 0 && hi == 0 {
                None
            } else {
                Some(ArrivalModel::SporadicReleaseIntervals { mit_lo: lo, mit_hi: hi })
            },
            None => match mit {
                Some(m) => if m == 0 {
                    None
                } else {
                    Some(ArrivalModel::Sporadic { mit: m })
                },
                None => None,
            },
        },
{
    if let Some((mit_lo, mit_hi)) = release_intervals {
        if mit_lo == 0 && mit_hi == 0 {
            return None;
        }
        return Some(ArrivalModel::SporadicReleaseIntervals { mit_lo, mit_hi });
    }
    match mit {
        None => None,
        Some(m) => if m == 0 {
            None
        } else {
            Some(ArrivalModel::Sporadic { mit: m })
        },
    }
}

/// How the arrivals of a task have been given so far.
#[derive(Debug, Clone, Copy, PartialEq, Eq, Structural)]
pub enum ArrivalMode {
    /// Each job with an exact arrival time.
    Exact,
    /// Each job with a window of possible release times.
    Intervals,
}

/// What an arrival model does with the next job.
#[derive(Debug, Clone, Copy, PartialEq, Eq, Structural)]
pub enum SporadicStep {
    /// The job mixes the two modes: the models become invalid.
    Invalidate,
    /// The release window `[lo, hi]` is fed, in interval mode.
    FeedWindow { lo: u64, hi: u64 },
    /// The exact arrival is fed, in exact mode.
    FeedArrival { arrival: u64 },
}

/// The step for a job whose arrival is `arrival` and whose earliest
/// release, if it has one, is `release_lo`, in `mode`: a job of the other
/// mode than the one set invalidates the models; otherwise a job with an
/// earliest release feeds its window, and one without feeds its arrival.
pub open spec fn spec_sporadic_step(mode: Option<ArrivalMode>, release_lo: Option<u64>, arrival: u64) -> SporadicStep {
    match (mode, release_lo) {
        (Some(ArrivalMode::Exact), Some(_)) => SporadicStep::Invalidate,
        (Some(ArrivalMode::Intervals), None) => SporadicStep::Invalidate,
        (_, Some(lo)) => SporadicStep::FeedWindow { lo, hi: arrival },
        (_, None) => SporadicStep::FeedArrival { arrival },
    }
}

/// The mode after a step: the mode of what was fed, unchanged otherwise.
pub open spec fn spec_mode_after(mode: Option<ArrivalMode>, step: SporadicStep) -> Option<ArrivalMode> {
    match step {
        SporadicStep::Invalidate => mode,
        SporadicStep::FeedWindow { .. } => Some(ArrivalMode::Intervals),
        SporadicStep::FeedArrival { .. } => Some(ArrivalMode::Exact),
    }
}

/// The step for the next job: see `spec_sporadic_step`; and the mode after it.
pub fn sporadic_step(mode: Option<ArrivalMode>, release_lo: Option<u64>, arrival: u64) -> (r: (
    SporadicStep,
    Option<ArrivalMode>,
))
    ensures
        r.0 == spec_sporadic_step(mode, release_lo, arrival),
        r.1 == spec_mode_after(mode, r.0),
{
    match (mode, release_lo) {
        (Some(ArrivalMode::Exact), Some(_)) | (Some(ArrivalMode::Intervals), None) => (SporadicStep::Invalidate, mode),
        (_, Some(lo)) => (SporadicStep::FeedWindow { lo, hi: arrival }, Some(ArrivalMode::Intervals)),
        (_, None) => (SporadicStep::FeedArrival { arrival }, Some(ArrivalMode::Exact)),
    }
}

} // verus!
