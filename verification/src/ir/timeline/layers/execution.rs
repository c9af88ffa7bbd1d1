//! Times at which a task runs on a processor.

use crate::events::{EventData, TraceEvent};
use crate::interval::{Bound, TimeInterval};
use vstd::prelude::*;

use super::base::{spec_closed, spec_opened, spec_same, BaseLayer};
use super::Layer;

verus! {

/// A switch-in or a scheduler change opens a running interval.
pub open spec fn spec_starts_running(ev: EventData) -> bool {
    ev is SchedSwitchedIn || ev is SchedulerChanged
}

pub struct ExecutionLayer {
    recorder: BaseLayer,
}

impl Layer for ExecutionLayer {
    closed spec fn spec_base(&self) -> BaseLayer {
        self.recorder
    }

    open spec fn spec_accepts(base: BaseLayer, event: TraceEvent) -> bool {
        &&& spec_starts_running(event.ev) ==> base.spec_can_open(event.ts)
        &&& event.ev is SchedSwitchedOut ==> base.spec_can_close(event.ts)
    }

    open spec fn spec_step(base: BaseLayer, event: TraceEvent, next: BaseLayer) -> bool {
        if spec_starts_running(event.ev) {
            spec_opened(base, next, event.ts)
        } else if event.ev is SchedSwitchedOut {
            spec_closed(base, next, event.ts)
        } else {
            spec_same(base, next)
        }
    }

    fn update(&mut self, event: &TraceEvent) {
        match event.ev {
            EventData::SchedSwitchedIn { .. } | EventData::SchedulerChanged { .. } => {
                self.recorder.push_lower_bound(event.ts);
            },
            EventData::SchedSwitchedOut { .. } => {
                self.recorder.push_upper_bound(event.ts);
            },
            _ => {},
        }
    }

    fn get_base(&self) -> (r: &BaseLayer) {
        &self.recorder
    }

    fn get_base_mut(&mut self) -> (r: &mut BaseLayer) {
        &mut self.recorder
    }
}

impl ExecutionLayer {
    pub fn new() -> (r: Self)
        ensures
            r.spec_base().wf(),
            r.spec_base().blocks().len() == 0,
            r.spec_base().plain_seq().len() == 0,
            r.spec_base().current() is None,
    {
        Self { recorder: BaseLayer::new() }
    }

    /// The running intervals inside `range`.
    pub fn plain_intervals(&mut self, range: &TimeInterval) -> (r: Vec<TimeInterval>)
        requires
            old(self).spec_base().wf(),
            range.a != Bound::Infinity,
            range.b != Bound::MinusInfinity,
        ensures
            final(self).spec_base().wf(),
            spec_same(old(self).spec_base(), final(self).spec_base()),
            r@ == crate::interval::isects(old(self).spec_base().plain_seq(), *range)
                + super::base::open_part(old(self).spec_base().current(), *range),
    {
        self.recorder.plain_intervals(range)
    }
}

impl Default for ExecutionLayer {
    fn default() -> (r: Self)
        ensures
            r.spec_base().wf(),
            r.spec_base().blocks().len() == 0,
            r.spec_base().plain_seq().len() == 0,
            r.spec_base().current() is None,
    {
        Self::new()
    }
}

} // verus!
