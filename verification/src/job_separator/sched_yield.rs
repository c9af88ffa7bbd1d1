//! Signature of deadline jobs separated by `sched_yield`.
//!
//! A deadline task ends its job by yielding; it is switched out, and the
//! deadline timer that fires next releases the following job.

use super::{JobSeparation, JobSeparator, Signature};
use crate::events::{EventData, TraceEvent};
use vstd::prelude::*;

verus! {

/// States of the `sched_yield` deadline automaton.
#[derive(PartialEq, Eq, Debug, Clone, Copy, Structural)]
pub enum SchedYieldDeadline {
    Init,
    Yielding,
    SwitchedOut,
    Timer,
    Reject,
}

pub open spec fn spec_yield_next(s: SchedYieldDeadline, e: TraceEvent) -> SchedYieldDeadline {
    match s {
        SchedYieldDeadline::Init => if e.ev is EnterSchedYield {
            SchedYieldDeadline::Yielding
        } else {
            SchedYieldDeadline::Reject
        },
        SchedYieldDeadline::Yielding => if e.ev is SchedSwitchedOut {
            SchedYieldDeadline::SwitchedOut
        } else {
            SchedYieldDeadline::Reject
        },
        SchedYieldDeadline::SwitchedOut => if e.ev is EnterDlTimer {
            SchedYieldDeadline::Timer
        } else {
            SchedYieldDeadline::Reject
        },
        _ => SchedYieldDeadline::Reject,
    }
}

/// Position of the first deadline-timer event of `m` at or after `i`;
/// `m.len()` if there is none.
pub open spec fn first_dl_timer(m: Seq<TraceEvent>, i: int) -> int
    decreases m.len() - i,
{
    if i < 0 || i >= m.len() {
        m.len() as int
    } else if m[i].ev is EnterDlTimer {
        i
    } else {
        first_dl_timer(m, i + 1)
    }
}

proof fn lemma_first_dl_timer(m: Seq<TraceEvent>, i: int)
    requires
        0 <= i <= m.len(),
    ensures
        i <= first_dl_timer(m, i) <= m.len(),
        first_dl_timer(m, i) < m.len() ==> m[first_dl_timer(m, i)].ev is EnterDlTimer,
    decreases m.len() - i,
{
    if i < m.len() && !(m[i].ev is EnterDlTimer) {
        lemma_first_dl_timer(m, i + 1);
    }
}

impl Signature for SchedYieldDeadline {
    open spec fn spec_initial() -> Self {
        SchedYieldDeadline::Init
    }

    open spec fn spec_next(self, event: TraceEvent) -> Self {
        spec_yield_next(self, event)
    }

    open spec fn spec_is_terminal(self) -> bool {
        self is Timer
    }

    open spec fn spec_is_rejection(self) -> bool {
        self is Reject
    }

    /// A sequence with a deadline timer event.
    open spec fn spec_extractable(matched: Seq<TraceEvent>) -> bool {
        first_dl_timer(matched, 0) < matched.len()
    }

    open spec fn spec_separator(matched: Seq<TraceEvent>) -> JobSeparator {
        JobSeparator::YieldSchedDeadline
    }

    /// The previous job ends with the yield; the next one is released when
    /// the deadline timer fires, and arrives when it was set to expire.
    open spec fn spec_separation(matched: Seq<TraceEvent>) -> JobSeparation {
        let t = matched[first_dl_timer(matched, 0)];
        let expires = t.ev->EnterDlTimer_expires;
        JobSeparation {
            prev_end: matched[0].ts,
            curr_release: t.ts,
            curr_arrival: Some(expires),
            curr_first_cycle: expires,
        }
    }

    open spec fn spec_history_inv(self, history: Seq<TraceEvent>) -> bool {
        match self {
            SchedYieldDeadline::Init => history.len() == 0,
            SchedYieldDeadline::Yielding => history.len() == 1,
            SchedYieldDeadline::SwitchedOut => history.len() == 2,
            SchedYieldDeadline::Timer => history.len() == 3 && history[2].ev is EnterDlTimer,
            SchedYieldDeadline::Reject => true,
        }
    }

    proof fn lemma_initial_inv() {
    }

    proof fn lemma_step_inv(s: Self, history: Seq<TraceEvent>, e: TraceEvent) {
    }

    proof fn lemma_terminal_extractable(s: Self, history: Seq<TraceEvent>) {
        assert(history.len() == 3);
        if history[0].ev is EnterDlTimer {
            assert(first_dl_timer(history, 0) == 0);
        } else if history[1].ev is EnterDlTimer {
            assert(first_dl_timer(history, 1) == 1);
            assert(first_dl_timer(history, 0) == 1);
        } else {
            assert(first_dl_timer(history, 2) == 2);
            assert(first_dl_timer(history, 1) == 2);
            assert(first_dl_timer(history, 0) == 2);
        }
    }

    fn initial_state() -> (r: Self) {
        Self::Init
    }

    fn next(&self, event: &TraceEvent) -> (r: Self) {
        match self {
            Self::Init => if matches!(event.ev, EventData::EnterSchedYield {  }) {
                Self::Yielding
            } else {
                Self::Reject
            },
            Self::Yielding => if matches!(event.ev, EventData::SchedSwitchedOut { .. }) {
                Self::SwitchedOut
            } else {
                Self::Reject
            },
            Self::SwitchedOut => if event.is_dl_timer() {
                Self::Timer
            } else {
                Self::Reject
            },
            _ => Self::Reject,
        }
    }

    fn is_terminal_state(&self) -> (r: bool) {
        matches!(self, Self::Timer)
    }

    fn is_rejection_state(&self) -> (r: bool) {
        matches!(self, Self::Reject)
    }

    fn job_separator(&self, _matched_events: &[TraceEvent]) -> (r: JobSeparator) {
        JobSeparator::YieldSchedDeadline
    }

    fn job_separation(&self, matched_events: &[TraceEvent]) -> (r: JobSeparation) {
        proof {
            lemma_first_dl_timer(matched_events@, 0);
        }
        let prev_end = matched_events[0].ts;
        let mut i: usize = 0;
        while !matched_events[i].is_dl_timer()
            invariant
                0 <= i <= first_dl_timer(matched_events@, 0) < matched_events@.len(),
                first_dl_timer(matched_events@, 0) == first_dl_timer(matched_events@, i as int),
            decreases matched_events@.len() - i,
        {
            proof {
                lemma_first_dl_timer(matched_events@, i + 1);
            }
            i += 1;
        }
        let timer = matched_events[i];
        let expires = match timer.ev {
            EventData::EnterDlTimer { expires } => expires,
            _ => 0,
        };
        JobSeparation {
            prev_end,
            curr_release: timer.ts,
            curr_first_cycle: expires,
            curr_arrival: Some(expires),
        }
    }
}

} // verus!
