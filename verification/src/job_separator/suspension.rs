//! Signature of non-self-suspending jobs: a job ends when the thread
//! suspends itself and the next one starts when it wakes up.

use crate::events::{EventData, TraceEvent, spec_is_suspension};
use vstd::prelude::*;

use super::{JobSeparation, JobSeparator, Signature};

verus! {

/// Events that may occur while a thread that has not run yet waits to run.
pub open spec fn spec_not_running(ev: EventData) -> bool {
    ev is AffinityChanged || ev is SchedulerChanged || ev is SchedMigrateTask || ev is SchedWaking
}

pub open spec fn spec_end_of_suspension(ev: EventData) -> bool {
    ev is SchedWakeUp || ev is LimeEndOfTrace
}

fn not_running(event: &TraceEvent) -> (r: bool)
    ensures
        r == spec_not_running(event.ev),
{
    match event.ev {
        EventData::AffinityChanged | EventData::SchedulerChanged { .. }
        | EventData::SchedMigrateTask { .. } | EventData::SchedWaking { .. } => true,
        _ => false,
    }
}

fn start_of_trace(event: &TraceEvent) -> (r: bool)
    ensures
        r == (event.ev is LimeStartOfTrace),
{
    match event.ev {
        EventData::LimeStartOfTrace => true,
        _ => false,
    }
}

fn end_of_suspension(event: &TraceEvent) -> (r: bool)
    ensures
        r == spec_end_of_suspension(event.ev),
{
    match event.ev {
        EventData::SchedWakeUp { .. } | EventData::LimeEndOfTrace => true,
        _ => false,
    }
}

/// States of the self-suspension automaton.
#[derive(PartialEq, Eq, Debug, Clone, Copy, Structural)]
pub enum SelfSuspension {
    Init,
    Suspended,
    NotRunning,
    Awake,
    Reject,
}

pub open spec fn spec_suspension_next(s: SelfSuspension, e: TraceEvent) -> SelfSuspension {
    match s {
        SelfSuspension::Init => if spec_is_suspension(e.ev) {
            SelfSuspension::Suspended
        } else if e.ev is LimeStartOfTrace {
            SelfSuspension::NotRunning
        } else {
            SelfSuspension::Reject
        },
        SelfSuspension::NotRunning => if spec_not_running(e.ev) {
            SelfSuspension::NotRunning
        } else if e.ev is SchedWakeUp {
            SelfSuspension::Awake
        } else {
            SelfSuspension::Reject
        },
        SelfSuspension::Suspended => if spec_end_of_suspension(e.ev) {
            SelfSuspension::Awake
        } else {
            SelfSuspension::Suspended
        },
        _ => SelfSuspension::Reject,
    }
}

impl Signature for SelfSuspension {
    open spec fn spec_initial() -> Self {
        SelfSuspension::Init
    }

    open spec fn spec_next(self, event: TraceEvent) -> Self {
        spec_suspension_next(self, event)
    }

    open spec fn spec_is_terminal(self) -> bool {
        self is Awake
    }

    open spec fn spec_is_rejection(self) -> bool {
        self is Reject
    }

    open spec fn spec_extractable(matched: Seq<TraceEvent>) -> bool {
        matched.len() > 0
    }

    open spec fn spec_separator(matched: Seq<TraceEvent>) -> JobSeparator {
        JobSeparator::Suspension
    }

    /// The previous job ends at the suspension; the next one is released
    /// and starts at the wake-up.
    open spec fn spec_separation(matched: Seq<TraceEvent>) -> JobSeparation {
        JobSeparation {
            prev_end: matched[0].ts,
            curr_release: matched.last().ts,
            curr_first_cycle: matched.last().ts,
            curr_arrival: None,
        }
    }

    open spec fn spec_history_inv(self, history: Seq<TraceEvent>) -> bool {
        match self {
            SelfSuspension::Init => history.len() == 0,
            SelfSuspension::Reject => true,
            _ => history.len() > 0,
        }
    }

    proof fn lemma_initial_inv() {
    }

    proof fn lemma_step_inv(s: Self, history: Seq<TraceEvent>, e: TraceEvent) {
        if history.len() > 0 {
            assert(history.push(e)[0] == history[0]);
        }
    }

    proof fn lemma_terminal_extractable(s: Self, history: Seq<TraceEvent>) {
    }

    fn initial_state() -> (r: Self) {
        Self::Init
    }

    fn next(&self, event: &TraceEvent) -> (r: Self) {
        match self {
            Self::Init => {
                if event.is_suspension() {
                    Self::Suspended
                } else if start_of_trace(event) {
                    Self::NotRunning
                } else {
                    Self::Reject
                }
            },
            Self::NotRunning => {
                if not_running(event) {
                    Self::NotRunning
                } else if event.is_wakeup() {
                    Self::Awake
                } else {
                    Self::Reject
                }
            },
            Self::Suspended => {
                if end_of_suspension(event) {
                    Self::Awake
                } else {
                    Self::Suspended
                }
            },
            _ => Self::Reject,
        }
    }

    fn is_terminal_state(&self) -> (r: bool) {
        matches!(self, Self::Awake)
    }

    fn is_rejection_state(&self) -> (r: bool) {
        matches!(self, Self::Reject)
    }

    fn job_separator(&self, _matched_events: &[TraceEvent]) -> (r: JobSeparator) {
        JobSeparator::Suspension
    }

    fn job_separation(&self, matched_events: &[TraceEvent]) -> (r: JobSeparation) {
        let prev_end = matched_events[0].ts;
        let curr_release = matched_events[matched_events.len() - 1].ts;

        JobSeparation {
            prev_end,
            curr_release,
            curr_first_cycle: curr_release,
            curr_arrival: None,
        }
    }
}

} // verus!
