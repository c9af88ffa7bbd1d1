//! Job definition.

use crate::interval::{Bound, Interval, TimeInterval};
use crate::ir::timeline::Timeline;
use vstd::prelude::*;

verus! {

/// Job timing data: the important times in the lifetime of a job.
#[derive(Debug, Clone, Copy, PartialEq, Eq, Structural)]
pub struct Job {
    /// Time at which the job is supposed to arrive in the system.
    pub arrival: Option<u64>,
    /// First point in time the job is present in the system.
    pub release: u64,
    /// Last point in time the job is scheduled.
    pub end: u64,
    /// First point in time at which the job is the last pending job.
    pub first_cycle: u64,
}

/// Release jitter: how long after its expected arrival the job was released.
pub open spec fn spec_release_jitter(j: Job) -> u64 {
    match j.arrival {
        Some(a) => if j.release >= a {
            (j.release - a) as u64
        } else {
            0
        },
        None => 0,
    }
}

/// The arrival of a job: its expected arrival when it has one and it is
/// not after the release, the release otherwise.
pub open spec fn spec_arrival(j: Job) -> u64 {
    (j.release - spec_release_jitter(j)) as u64
}

/// The range from the first to the last cycle of a job.
pub open spec fn spec_boundaries(j: Job) -> Interval {
    Interval { a: Bound::Value(j.first_cycle), b: Bound::Value(j.end) }
}

impl Job {
    /// Returns the amount of processor time used by the job.
    pub fn processor_time(&self, timeline: &mut Timeline) -> (r: u64)
        requires
            old(timeline).wf(),
        ensures
            final(timeline).wf(),
            crate::ir::timeline::layers::base::spec_same(old(timeline).rt(), final(timeline).rt()),
            final(timeline).su() == old(timeline).su(),
            r == old(timeline).rt().spec_coverage(spec_boundaries(*self)),
    {
        timeline.processor_time(&self.boundaries())
    }

    /// Returns the amount of time the job has been suspended.
    pub fn suspension_time(&self, timeline: &mut Timeline) -> (r: u64)
        requires
            old(timeline).wf(),
        ensures
            final(timeline).wf(),
            crate::ir::timeline::layers::base::spec_same(old(timeline).su(), final(timeline).su()),
            final(timeline).rt() == old(timeline).rt(),
            r == old(timeline).su().spec_coverage(spec_boundaries(*self)),
    {
        timeline.suspension_time(&self.boundaries())
    }

    /// Returns the amount of time the job has been preempted: the part of
    /// its response time in which it neither ran nor was suspended.
    pub fn preemption_time(&self, timeline: &mut Timeline) -> (r: u64)
        requires
            old(timeline).wf(),
            self.end >= self.first_cycle,
            old(timeline).rt().spec_coverage(spec_boundaries(*self)) + old(timeline).su().spec_coverage(
                spec_boundaries(*self),
            ) <= self.end - self.first_cycle,
        ensures
            final(timeline).wf(),
            r == self.end - self.first_cycle - old(timeline).rt().spec_coverage(spec_boundaries(*self))
                - old(timeline).su().spec_coverage(spec_boundaries(*self)),
    {
        let ghost t0 = *timeline;
        let p = self.processor_time(timeline);
        proof {
            crate::ir::timeline::layers::base::lemma_same_coverage(t0.su(), timeline.su(), spec_boundaries(*self));
        }
        let s = self.suspension_time(timeline);
        self.response_time() - p - s
    }

    /// Returns the job's response time.
    pub fn response_time(&self) -> (r: u64)
        requires
            self.end >= self.first_cycle,
        ensures
            r == self.end - self.first_cycle,
    {
        self.end - self.first_cycle
    }

    /// Returns the job's release jitter, i.e, the time between its arrival and
    /// its release. Always equal to 0 if no arrival time is available.
    pub fn release_jitter(&self) -> (r: u64)
        ensures
            r == spec_release_jitter(*self),
    {
        if let Some(expected_arrival) = self.arrival {
            return self.release.saturating_sub(expected_arrival);
        }
        0
    }

    /// Returns the job's arrival time. If no arrival time is available, then
    /// the release time is returned.
    pub fn arrival(&self) -> (r: u64)
        ensures
            r == spec_arrival(*self),
            self.arrival matches Some(a) ==> r == (if a <= self.release { a } else { self.release }),
            self.arrival is None ==> r == self.release,
    {
        self.release - self.release_jitter()
    }

    /// Returns the time interval spanning from the job's first to its last cycle.
    pub fn boundaries(&self) -> (r: TimeInterval)
        ensures
            r == (Interval { a: Bound::Value(self.first_cycle), b: Bound::Value(self.end) }),
    {
        TimeInterval::range(self.first_cycle, self.end)
    }
}

} // verus!
