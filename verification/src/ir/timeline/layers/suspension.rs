//! Times at which a task is suspended.

use crate::events::{TraceEvent, spec_is_suspension};
use crate::interval::{Bound, TimeInterval};
use vstd::prelude::*;

use super::base::{spec_closed, spec_opened, spec_same, BaseLayer};
use super::Layer;

verus! {


pub struct SuspensionLayer {
    base: BaseLayer,
}

impl Layer for SuspensionLayer {
    closed spec fn spec_base(&self) -> BaseLayer {
        self.base
    }

    open spec fn spec_accepts(base: BaseLayer, event: TraceEvent) -> bool {
        &&& event.ev is SchedWakeUp ==> base.spec_can_close(event.ts)
        &&& spec_is_suspension(event.ev) ==> base.spec_can_open(event.ts)
    }

    open spec fn spec_step(base: BaseLayer, event: TraceEvent, next: BaseLayer) -> bool {
        if event.ev is SchedWakeUp {
            spec_closed(base, next, event.ts)
        } else if spec_is_suspension(event.ev) {
            spec_opened(base, next, event.ts)
        } else {
            spec_same(base, next)
        }
    }

    fn update(&mut self, event: &TraceEvent) {
        if event.is_wakeup() {
            self.base.push_upper_bound(event.ts);
        } else if event.is_suspension() {
            self.base.push_lower_bound(event.ts);
        }
    }

    fn get_base(&self) -> (r: &BaseLayer) {
        &self.base
    }

    fn get_base_mut(&mut self) -> (r: &mut BaseLayer) {
        &mut self.base
    }
}

impl SuspensionLayer {
    pub fn new() -> (r: Self)
        ensures
            r.spec_base().wf(),
            r.spec_base().blocks().len() == 0,
            r.spec_base().plain_seq().len() == 0,
            r.spec_base().current() is None,
    {
        Self { base: BaseLayer::new() }
    }

    /// The suspension intervals inside `range`.
    pub fn plain_intervals(&mut self, range: &TimeInterval) -> (r: Vec<TimeInterval>)
        requires
            old(self).spec_base().wf(),
            range.a != Bound::Infinity,
            range.b != Bound::MinusInfinity,
        ensures
            final(self).spec_base().wf(),
            spec_same(old(self).spec_base(), final(self).spec_base()),
            r@ == crate::interval::isects(old(self).spec_base().plain_seq(), *range)
                + super::base::open_part(old(self).spec_base().current(), *range),
    {
        self.base.plain_intervals(range)
    }
}

impl Default for SuspensionLayer {
    fn default() -> (r: Self)
        ensures
            r.spec_base().wf(),
            r.spec_base().blocks().len() == 0,
            r.spec_base().plain_seq().len() == 0,
            r.spec_base().current() is None,
    {
        Self::new()
    }
}

} // verus!
