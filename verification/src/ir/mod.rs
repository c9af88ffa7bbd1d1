//! Intermediate representation of a task's activity.
//!
//! It tracks the state of the task over time and detects job boundaries;
//! model extractors query it.

use crate::events::TraceEvent;
use crate::interval::{Bound, TimeInterval};
use crate::job::Job;
use crate::job_separator::JobSeparator;
use vstd::prelude::*;

use self::job::{spec_track, JobTracker, SeparationEntry};
use self::timeline::layers::execution::ExecutionLayer;
use self::timeline::layers::suspension::SuspensionLayer;
use self::timeline::layers::Layer;
use self::timeline::Timeline;

pub mod job;
pub mod timeline;

verus! {

/// Intermediate representation of a task's activity.
pub struct Ir {
    pub timeline: Timeline,
    job_tracker: JobTracker,
}

impl Ir {
    pub closed spec fn tracker(&self) -> JobTracker {
        self.job_tracker
    }

    pub closed spec fn tl(&self) -> Timeline {
        self.timeline
    }

    pub open spec fn wf(&self) -> bool {
        &&& self.tl().wf()
        &&& self.tracker().wf()
    }

    /// The job separations that `event` completes.
    pub open spec fn spec_seps(&self, event: TraceEvent) -> Seq<(JobSeparator, crate::job_separator::JobSeparation)> {
        self.tracker().matcher().extracted_on(event)
    }

    /// The jobs that `event` completes.
    pub open spec fn spec_jobs(&self, event: TraceEvent) -> Seq<(JobSeparator, Job)> {
        spec_track(self.tracker().separations(), Seq::empty(), self.spec_seps(event)).1
    }

    /// The pending separations once `event` is consumed.
    pub open spec fn spec_separations_after(&self, event: TraceEvent) -> Seq<SeparationEntry> {
        spec_track(self.tracker().separations(), Seq::empty(), self.spec_seps(event)).0
    }

    /// Creates a new intermediate representation.
    pub fn new() -> (r: Self)
        ensures
            r.wf(),
            r.tracker().separations() == Seq::<SeparationEntry>::empty(),
            r.tracker().matcher().buffered() == seq![TraceEvent::spec_start_of_trace()],
            r.tl().rt().plain_seq().len() == 0,
            r.tl().rt().blocks().len() == 0,
            r.tl().rt().current() is None,
            r.tl().su().plain_seq().len() == 0,
            r.tl().su().blocks().len() == 0,
            r.tl().su().current() is None,
            r.tracker().matcher().started(),
            r.tl().spec_update_before_clean() == self::timeline::CLEAN_PERIOD,
            r.tl().spec_compression_thresh() == self::timeline::COMPRESSION_DEFAULT_THRESH,
    {
        let mut job_tracker = JobTracker::new();
        job_tracker.init();
        Self { timeline: Timeline::new(), job_tracker }
    }

    /// Updates the timeline and extracts the jobs that `event` completes;
    /// they are appended to `completed_jobs`.
    pub fn consume_event(&mut self, event: TraceEvent, completed_jobs: &mut Vec<(JobSeparator, Job)>)
        requires
            old(self).wf(),
            old(self).tl().spec_accepts(event),
        ensures
            final(self).wf(),
            ExecutionLayer::spec_step(old(self).tl().rt(), event, final(self).tl().rt()),
            SuspensionLayer::spec_step(old(self).tl().su(), event, final(self).tl().su()),
            ({
                let seps = old(self).tracker().matcher().extracted_on(event);
                (final(self).tracker().separations(), final(completed_jobs)@) == spec_track(
                    old(self).tracker().separations(),
                    old(completed_jobs)@,
                    seps,
                )
            }),
    {
        self.timeline.update(&event);
        self.job_tracker.consume_event(event, completed_jobs);
    }

    /// The timeline, for the model extractors to query: the job tracker
    /// stays as it is.
    pub fn timeline_mut(&mut self) -> (r: &mut Timeline)
        ensures
            *r == old(self).tl(),
            final(self).tl() == *final(r),
            final(self).tracker() == old(self).tracker(),
    {
        &mut self.timeline
    }

    /// Whether the timeline takes `event`: see `Timeline::accepts`.
    pub fn accepts(&self, event: &TraceEvent) -> (r: bool)
        requires
            self.wf(),
        ensures
            r == self.tl().spec_accepts(*event),
    {
        self.timeline.accepts(event)
    }

    /// Cleans the timeline: everything before the oldest pending job is
    /// dropped every few calls, when no signature match is in progress.
    pub fn clean(&mut self)
        requires
            old(self).wf(),
        ensures
            final(self).wf(),
            final(self).tracker() == old(self).tracker(),
            final(self).tl().rt().current() == old(self).tl().rt().current(),
            final(self).tl().su().current() == old(self).tl().su().current(),
            self::timeline::spec_try_cleaned(old(self).tl(), final(self).tl(), old(self).tracker()),
    {
        self.job_tracker.clean();
        self.timeline.try_clean(&self.job_tracker);
    }

    /// The processor time and the suspension time of `job`.
    pub fn job_times(&mut self, job: &Job) -> (r: (u64, u64))
        requires
            old(self).wf(),
        ensures
            final(self).wf(),
            final(self).tracker() == old(self).tracker(),
            self::timeline::layers::base::spec_same(old(self).tl().rt(), final(self).tl().rt()),
            self::timeline::layers::base::spec_same(old(self).tl().su(), final(self).tl().su()),
            r == (
                old(self).tl().rt().spec_coverage(crate::job::spec_boundaries(*job)) as u64,
                old(self).tl().su().spec_coverage(crate::job::spec_boundaries(*job)) as u64,
            ),
    {
        let ghost t0 = self.timeline;
        let exec = job.processor_time(&mut self.timeline);
        let susp = job.suspension_time(&mut self.timeline);
        proof {
            self::timeline::layers::base::lemma_same_coverage(
                t0.su(),
                self.timeline.su(),
                crate::job::spec_boundaries(*job),
            );
        }
        (exec, susp)
    }

    /// Processor time used during `range`.
    pub fn cpu_time(&mut self, range: &TimeInterval) -> (r: u64)
        requires
            old(self).wf(),
            range.a != Bound::Infinity,
            range.b != Bound::MinusInfinity,
            old(self).tl().rt().current() matches Some(i) && i.spec_intersection(*range) is Some
                ==> range.b is Value,
        ensures
            final(self).wf(),
            final(self).tracker() == old(self).tracker(),
            r == old(self).tl().rt().spec_coverage(*range),
    {
        self.timeline.processor_time(range)
    }
}

impl Default for Ir {
    fn default() -> (r: Self)
        ensures
            r.wf(),
    {
        Self::new()
    }
}

} // verus!
