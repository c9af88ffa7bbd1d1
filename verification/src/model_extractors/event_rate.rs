//! Event rate recording.

use crate::events::TraceEvent;
use vstd::prelude::*;

verus! {

/// Tracks event throughput: the number of events and the first and last
/// non-zero timestamps.
pub struct EventRate {
    count: usize,
    first_arrival: u64,
    last_arrival: u64,
}

impl EventRate {
    pub closed spec fn spec_count(&self) -> usize {
        self.count
    }

    pub closed spec fn spec_first(&self) -> u64 {
        self.first_arrival
    }

    pub closed spec fn spec_last(&self) -> u64 {
        self.last_arrival
    }

    pub fn new() -> (r: Self)
        ensures
            r.spec_count() == 0,
            r.spec_first() == 0,
            r.spec_last() == 0,
    {
        Self { count: 0, first_arrival: 0, last_arrival: 0 }
    }

    pub fn update(&mut self, event: &TraceEvent)
        requires
            old(self).spec_count() < usize::MAX,
        ensures
            final(self).spec_count() == old(self).spec_count() + 1,
            final(self).spec_first() == if old(self).spec_count() == 0 {
                event.ts
            } else {
                old(self).spec_first()
            },
            final(self).spec_last() == if event.ts != 0 {
                event.ts
            } else {
                old(self).spec_last()
            },
    {
        if self.count == 0 {
            self.first_arrival = event.ts;
        }
        if event.ts != 0 {
            self.last_arrival = event.ts;
        }
        self.count += 1;
    }

    /// Number of events seen.
    pub fn count(&self) -> (r: usize)
        ensures
            r == self.spec_count(),
    {
        self.count
    }

    /// Time between the first and the last event, when at least two came in
    /// order.
    pub fn span(&self) -> (r: Option<u64>)
        ensures
            r == if self.spec_count() >= 2 && self.spec_last() >= self.spec_first() {
                Some((self.spec_last() - self.spec_first()) as u64)
            } else {
                None::<u64>
            },
    {
        if self.count >= 2 && self.last_arrival >= self.first_arrival {
            Some(self.last_arrival - self.first_arrival)
        } else {
            None
        }
    }
}

} // verus!
