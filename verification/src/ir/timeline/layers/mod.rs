//! The layers currently implemented.
//!
//! `BaseLayer` provides the basic layer handling. Other layers wrap a
//! `BaseLayer` and implement the `Layer` trait, which says how trace events
//! open and close intervals.

use crate::events::TraceEvent;
use crate::interval::{inplace_intersection, rank, Bound, Interval, TimeInterval};
use vstd::prelude::*;

use self::base::{blocks_before, BaseLayer};

pub mod base;
pub mod execution;
pub mod suspension;

verus! {

/// A layer implemented on top of a `BaseLayer`.
pub trait Layer {
    /// The wrapped base layer.
    spec fn spec_base(&self) -> BaseLayer;

    /// Events whose timestamps fit what `base` has recorded.
    spec fn spec_accepts(base: BaseLayer, event: TraceEvent) -> bool;

    /// What recording `event` makes of `base`.
    spec fn spec_step(base: BaseLayer, event: TraceEvent, next: BaseLayer) -> bool;

    /// Records the state change, if any, that `event` signals.
    fn update(&mut self, event: &TraceEvent)
        requires
            old(self).spec_base().wf(),
            Self::spec_accepts(old(self).spec_base(), *event),
        ensures
            final(self).spec_base().wf(),
            Self::spec_step(old(self).spec_base(), *event, final(self).spec_base()),
    ;

    /// Returns a reference to the wrapped base layer.
    fn get_base(&self) -> (r: &BaseLayer)
        ensures
            *r == self.spec_base(),
    ;

    /// Returns a mutable reference to the wrapped base layer.
    fn get_base_mut(&mut self) -> (r: &mut BaseLayer)
        ensures
            *r == old(self).spec_base(),
            final(self).spec_base() == *final(r),
    ;

    fn trim(&mut self, active_range: &TimeInterval)
        requires
            old(self).spec_base().wf(),
            active_range.well_formed(),
        ensures
            final(self).spec_base().wf(),
            final(self).spec_base().current() == old(self).spec_base().current(),
            final(self).spec_base().blocks() == old(self).spec_base().blocks().skip(
                blocks_before(old(self).spec_base().blocks(), rank(active_range.a)) as int,
            ),
            final(self).spec_base().plain_seq() == inplace_intersection(
                old(self).spec_base().plain_seq(),
                *active_range,
            ),
    {
        self.get_base_mut().trim(active_range)
    }

    fn has_compressed_intervals(&self, range: &Interval) -> (r: bool)
        ensures
            r == !(self.spec_base().blocks().len() == 0 || rank(self.spec_base().blocks().last().0.b)
                < rank(range.a)),
    {
        !self.get_base().only_plain_intervals_in(range)
    }

    fn compress(&mut self, until: u64, new_block: bool)
        requires
            old(self).spec_base().wf(),
        ensures
            final(self).spec_base().wf(),
            base::spec_compress_post(old(self).spec_base(), final(self).spec_base(), until, new_block),
    {
        self.get_base_mut().compress(until, new_block);
    }

    fn compress_all(&mut self, new_block: bool)
        requires
            old(self).spec_base().wf(),
        ensures
            final(self).spec_base().wf(),
            base::spec_compress_all_post(old(self).spec_base(), final(self).spec_base(), new_block),
    {
        self.get_base_mut().compress_all(new_block);
    }

    /// Time spent during `range` in the state that the layer records.
    fn time(&mut self, range: &TimeInterval) -> (r: u64)
        requires
            old(self).spec_base().wf(),
            range.a != Bound::Infinity,
            range.b != Bound::MinusInfinity,
            old(self).spec_base().current() matches Some(i) && i.spec_intersection(*range) is Some
                ==> range.b is Value,
        ensures
            final(self).spec_base().wf(),
            base::spec_same(old(self).spec_base(), final(self).spec_base()),
            r == old(self).spec_base().spec_coverage(*range),
    {
        self.get_base_mut().coverage(range)
    }
}

} // verus!
