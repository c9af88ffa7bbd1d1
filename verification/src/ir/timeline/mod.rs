//! The state of a task over time.
//!
//! A timeline consists of layers. A layer is an ordered sequence of time
//! intervals during which the task is in a particular state.

use crate::events::{EventData, TraceEvent};
use crate::interval::{inplace_intersection, left_count, rank, Bound, Interval, TimeInterval};
use crate::ir::job::{sorted_u64, JobTracker};
use vstd::prelude::*;

use self::layers::base::{
    all_finite, blocks_before, spec_compress_all_post, spec_compress_post, BaseLayer,
};
use self::layers::execution::ExecutionLayer;
use self::layers::suspension::SuspensionLayer;
use self::layers::Layer;

pub mod layers;

verus! {

pub const CLEAN_PERIOD: usize = 32;

pub const COMPRESSION_DEFAULT_THRESH: usize = 1024;

/// Every block and every plain interval of `base` starts at or after `t`.
pub open spec fn spec_starts_after(base: BaseLayer, t: int) -> bool {
    &&& forall|i: int| 0 <= i < base.blocks().len() ==> rank((#[trigger] base.blocks()[i]).0.a) >= t
    &&& forall|i: int| 0 <= i < base.plain_seq().len() ==> rank((#[trigger] base.plain_seq()[i]).a) >= t
}

/// The first value of `s` after position `i` that is above `prev`.
pub open spec fn first_above(s: Seq<u64>, i: int, prev: u64) -> Option<u64>
    decreases s.len() - i,
{
    if i < 0 || i >= s.len() {
        None
    } else if s[i] > prev {
        Some(s[i])
    } else {
        first_above(s, i + 1, prev)
    }
}

/// What trying to clean does: the count down to the next cleaning goes
/// down by one; when it reaches zero and no signature match is in
/// progress, it starts over and everything before the oldest pending job
/// (everything, when none is pending) is dropped; otherwise the layers stay.
pub open spec fn spec_try_cleaned(t0: Timeline, t1: Timeline, job_tracker: JobTracker) -> bool {
    let n = if t0.spec_update_before_clean() > 0 {
        (t0.spec_update_before_clean() - 1) as usize
    } else {
        0usize
    };
    if n == 0 && !job_tracker.matcher().spec_ongoing() {
        let t = job_tracker.spec_pendings();
        &&& t1.spec_update_before_clean() == CLEAN_PERIOD
        &&& forall|v: u64| t.len() == 0 && v == u64::MAX || (t.contains(v) && forall|i: int|
            0 <= i < t.len() ==> v <= #[trigger] t[i]) ==> {
            &&& spec_starts_after(t1.rt(), v as int)
            &&& spec_starts_after(t1.su(), v as int)
        }
    } else {
        &&& t1.spec_update_before_clean() == n
        &&& t1.rt() == t0.rt()
        &&& t1.su() == t0.su()
    }
}

/// The compression point that follows `prev`, given the first cycles of
/// the pending jobs in increasing order `s`: the first of them past `prev`,
/// or the second of them when there was none; never the first.
pub open spec fn spec_next_point(s: Seq<u64>, prev: Option<u64>) -> Option<u64> {
    match prev {
        Some(p) => first_above(s, 1, p),
        None => if s.len() > 1 {
            Some(s[1])
        } else {
            None
        },
    }
}

/// What compressing towards the compression point `n` does to the layers:
/// the pending job starting first at or after `n` bounds the compression,
/// and everything is compressed when there is none.
pub open spec fn spec_compressed_towards(
    p: Seq<u64>,
    n: u64,
    rt0: BaseLayer,
    rt1: BaseLayer,
    su0: BaseLayer,
    su1: BaseLayer,
) -> bool {
    &&& (forall|i: int| 0 <= i < p.len() ==> #[trigger] p[i] < n) ==> spec_compress_all_post(rt0, rt1, true)
        && spec_compress_all_post(su0, su1, true)
    &&& !(forall|i: int| 0 <= i < p.len() ==> #[trigger] p[i] < n) ==> exists|v: u64|
        #[trigger] is_min_at_least(p, n, v) && spec_compress_post(rt0, rt1, v, true) && spec_compress_post(
            su0,
            su1,
            v,
            true,
        )
}

/// The smallest value of `s` at or above `c`.
pub open spec fn is_min_at_least(s: Seq<u64>, c: u64, v: u64) -> bool {
    &&& s.contains(v)
    &&& v >= c
    &&& forall|i: int| 0 <= i < s.len() && s[i] >= c ==> v <= #[trigger] s[i]
}

/// A finite interval ends at or before `u64::MAX`, so trimming at `u64::MAX`
/// leaves no plain interval.
pub proof fn lemma_left_count_max(s: Seq<Interval>)
    requires
        all_finite(s),
    ensures
        left_count(s, u64::MAX) == s.len(),
    decreases s.len(),
{
    if s.len() > 0 {
        assert forall|i: int| 0 <= i < s.drop_first().len() implies (#[trigger] s.drop_first()[i]).is_finite() by {
            assert(s.drop_first()[i] == s[i + 1]);
        }
        lemma_left_count_max(s.drop_first());
        assert(s[0].is_finite());
    }
}

/// Trimming with `[t, +inf)` leaves only intervals starting at or after `t`.
pub proof fn lemma_trim_starts_after(s: Seq<Interval>, t: u64)
    requires
        crate::interval::seq_ordered(s),
        all_finite(s),
    ensures
        forall|i: int|
            0 <= i < inplace_intersection(s, Interval { a: Bound::Value(t), b: Bound::Infinity }).len()
                ==> rank((#[trigger] inplace_intersection(s, Interval { a: Bound::Value(t), b: Bound::Infinity })[i]).a) >= t,
{
    let o = Interval { a: Bound::Value(t), b: Bound::Infinity };
    let r = inplace_intersection(s, o);
    layers::base::lemma_inplace_bounds(s, o);
    crate::interval::lemma_left_count_splits(s, t);
    let k = left_count(s, t) as int;
    let u = s.skip(k);
    assert(crate::interval::trim_right_spec(u, o.b) == u);
    assert(crate::interval::clip_last(u, o).len() == u.len());
    assert forall|i: int| 0 <= i < r.len() implies rank((#[trigger] r[i]).a) >= t by {
        assert(u[0] == s[k]);
        if i == 0 {
            assert(!s[k].spec_left_of(t));
        } else {
            assert(r[i] == crate::interval::clip_last(u, o)[i]);
            if i < u.len() - 1 {
                assert(r[i] == u[i]);
            }
            assert(u[i] == s[k + i]);
            assert(rank(s[k].b) < rank(s[k + i].a));
            assert(!s[k].spec_left_of(t));
            assert(s[k + i].well_formed());
        }
    }
}

/// Tracks the state of a task over time.
pub struct Timeline {
    /// Times at which the task runs on a processor.
    pub runtime: ExecutionLayer,
    /// Times at which the task is suspended.
    pub suspension: SuspensionLayer,
    update_before_clean: usize,
    compression_point: Option<u64>,
    compression_thresh: usize,
}

impl Timeline {
    /// The base layer of the running intervals.
    pub closed spec fn rt(&self) -> BaseLayer {
        self.runtime.spec_base()
    }

    /// The base layer of the suspension intervals.
    pub closed spec fn su(&self) -> BaseLayer {
        self.suspension.spec_base()
    }

    pub open spec fn wf(&self) -> bool {
        &&& self.rt().wf()
        &&& self.su().wf()
    }

    pub closed spec fn spec_update_before_clean(&self) -> usize {
        self.update_before_clean
    }

    pub closed spec fn spec_compression_thresh(&self) -> usize {
        self.compression_thresh
    }

    /// Whether both layers can record `event`.
    pub open spec fn spec_accepts(&self, event: TraceEvent) -> bool {
        &&& ExecutionLayer::spec_accepts(self.rt(), event)
        &&& SuspensionLayer::spec_accepts(self.su(), event)
    }

    /// Whether `event` fits the recorded intervals: an interval it opens
    /// starts after the recorded ones, one it closes ends after it started.
    pub fn accepts(&self, event: &TraceEvent) -> (r: bool)
        requires
            self.wf(),
        ensures
            r == self.spec_accepts(*event),
    {
        let rt = self.runtime.get_base();
        let su = self.suspension.get_base();
        let starts_running = match event.ev {
            EventData::SchedSwitchedIn { .. } | EventData::SchedulerChanged { .. } => true,
            _ => false,
        };
        let switched_out = match event.ev {
            EventData::SchedSwitchedOut { .. } => true,
            _ => false,
        };
        let wake_up = event.is_wakeup();
        let suspension = event.is_suspension();
        (!starts_running || rt.can_open(event.ts)) && (!switched_out || rt.can_close(event.ts)) && (
        !wake_up || su.can_close(event.ts)) && (!suspension || su.can_open(event.ts))
    }

    pub fn new() -> (r: Self)
        ensures
            r.wf(),
            r.rt().blocks().len() == 0,
            r.rt().plain_seq().len() == 0,
            r.rt().current() is None,
            r.su().blocks().len() == 0,
            r.su().plain_seq().len() == 0,
            r.su().current() is None,
            r.spec_update_before_clean() == CLEAN_PERIOD,
            r.spec_compression_thresh() == COMPRESSION_DEFAULT_THRESH,
    {
        Self {
            runtime: ExecutionLayer::new(),
            suspension: SuspensionLayer::new(),
            update_before_clean: CLEAN_PERIOD,
            compression_point: None,
            compression_thresh: COMPRESSION_DEFAULT_THRESH,
        }
    }

    fn trimming_point(&self, job_tracker: &JobTracker) -> (r: u64)
        ensures
            job_tracker.spec_pendings().len() == 0 ==> r == u64::MAX,
            job_tracker.spec_pendings().len() > 0 ==> job_tracker.spec_pendings().contains(r),
            forall|i: int| 0 <= i < job_tracker.spec_pendings().len() ==> r <= #[trigger] job_tracker.spec_pendings()[i],
    {
        job_tracker.oldest_job_first_cycle()
    }

    /// Returns true if a layer holds compressed blocks reaching into `range`.
    pub fn has_compressed_intervals(&self, range: &Interval) -> (r: bool)
        ensures
            r == (!(self.rt().blocks().len() == 0 || rank(
                self.rt().blocks().last().0.b,
            ) < rank(range.a)) || !(self.su().blocks().len() == 0 || rank(
                self.su().blocks().last().0.b,
            ) < rank(range.a))),
    {
        self.runtime.has_compressed_intervals(range) || self.suspension.has_compressed_intervals(range)
    }

    /// The first cycle of the oldest pending job at or after the compression
    /// point.
    fn plain_trimming_point(&self, compression_point: Option<u64>, job_tracker: &JobTracker) -> (r: Option<u64>)
        ensures
            compression_point is None ==> r is None,
            compression_point matches Some(c) ==> {
                &&& r is None <==> (forall|i: int| 0 <= i < job_tracker.spec_pendings().len() ==> #[trigger] job_tracker.spec_pendings()[i] < c)
                &&& r matches Some(v) ==> is_min_at_least(job_tracker.spec_pendings(), c, v)
            },
    {
        if let Some(c) = compression_point {
            let candidates = job_tracker.pendings_first_cycle();
            let ghost p = job_tracker.spec_pendings();
            let ghost cs = candidates@;
            let mut ret: Option<u64> = None;
            let mut i: usize = 0;
            while i < candidates.len()
                invariant
                    cs == candidates@,
                    cs.to_multiset() == p.to_multiset(),
                    0 <= i <= cs.len(),
                    ret is None <==> (forall|k: int| 0 <= k < i ==> cs[k] < c),
                    ret matches Some(v) ==> {
                        &&& v >= c
                        &&& exists|k: int| 0 <= k < i && cs[k] == v
                        &&& forall|k: int| 0 <= k < i && cs[k] >= c ==> v <= #[trigger] cs[k]
                    },
                decreases cs.len() - i,
            {
                let x = candidates[i];
                if x >= c {
                    match ret {
                        Some(v) => if x < v {
                            ret = Some(x);
                        },
                        None => ret = Some(x),
                    }
                }
                i += 1;
            }
            proof {
                broadcast use vstd::seq_lib::group_to_multiset_ensures;
                assert forall|k: int| 0 <= k < p.len() implies (#[trigger] cs.contains(p[k])) by {
                    assert(p.to_multiset().count(p[k]) > 0);
                }
                if let Some(v) = ret {
                    let w = choose|k: int| 0 <= k < cs.len() && cs[k] == v;
                    assert(cs.contains(v));
                    assert(p.to_multiset().count(v) > 0);
                    assert forall|k: int| 0 <= k < p.len() && p[k] >= c implies v <= #[trigger] p[k] by {
                        assert(cs.contains(p[k]));
                    }
                } else {
                    assert forall|k: int| 0 <= k < p.len() implies #[trigger] p[k] < c by {
                        assert(cs.contains(p[k]));
                    }
                }
            }
            return ret;
        }
        None
    }

    /// Counts down to the next cleaning, and cleans the timeline when the
    /// count reaches zero and no signature match is in progress.
    pub fn try_clean(&mut self, job_tracker: &JobTracker)
        requires
            old(self).wf(),
            job_tracker.wf(),
        ensures
            final(self).wf(),
            final(self).rt().current() == old(self).rt().current(),
            final(self).su().current() == old(self).su().current(),
            spec_try_cleaned(*old(self), *final(self), *job_tracker),
    {
        self.update_before_clean = if self.update_before_clean > 0 {
            self.update_before_clean - 1
        } else {
            0
        };

        if self.update_before_clean == 0 && !job_tracker.ongoing_matching() {
            self.update_before_clean = CLEAN_PERIOD;
            let tp = self.clean(job_tracker);
            proof {
                let t = job_tracker.spec_pendings();
                assert forall|v: u64| t.len() == 0 && v == u64::MAX || (t.contains(v) && forall|i: int|
                    0 <= i < t.len() ==> v <= #[trigger] t[i]) implies {
                    &&& spec_starts_after(self.rt(), v as int)
                    &&& spec_starts_after(self.su(), v as int)
                } by {
                    if t.len() > 0 {
                        let w = choose|k: int| 0 <= k < t.len() && t[k] == v;
                        let w2 = choose|k: int| 0 <= k < t.len() && t[k] == tp;
                        assert(tp <= t[w]);
                        assert(v <= t[w2]);
                    }
                }
            }
        }
    }

    fn do_compress(&mut self, until: u64, new_block: bool)
        requires
            old(self).wf(),
        ensures
            final(self).wf(),
            spec_compress_post(old(self).rt(), final(self).rt(), until, new_block),
            spec_compress_post(old(self).su(), final(self).su(), until, new_block),
            final(self).update_before_clean == old(self).update_before_clean,
            final(self).compression_point == old(self).compression_point,
            final(self).compression_thresh == old(self).compression_thresh,
    {
        self.runtime.compress(until, new_block);
        self.suspension.compress(until, new_block);
    }

    fn do_compress_all(&mut self, new_block: bool)
        requires
            old(self).wf(),
        ensures
            final(self).wf(),
            spec_compress_all_post(old(self).rt(), final(self).rt(), new_block),
            spec_compress_all_post(old(self).su(), final(self).su(), new_block),
            final(self).update_before_clean == old(self).update_before_clean,
            final(self).compression_point == old(self).compression_point,
            final(self).compression_thresh == old(self).compression_thresh,
    {
        self.runtime.compress_all(new_block);
        self.suspension.compress_all(new_block);
    }

    /// Compresses what lies before the compression point when the oldest
    /// pending job started before it, then drops everything before the
    /// oldest pending job. Returns the trimming point.
    fn trim(&mut self, job_tracker: &JobTracker) -> (tp: u64)
        requires
            old(self).wf(),
        ensures
            final(self).wf(),
            final(self).rt().current() == old(self).rt().current(),
            final(self).su().current() == old(self).su().current(),
            job_tracker.spec_pendings().len() == 0 ==> tp == u64::MAX,
            job_tracker.spec_pendings().len() > 0 ==> job_tracker.spec_pendings().contains(tp),
            forall|i: int| 0 <= i < job_tracker.spec_pendings().len() ==> tp <= #[trigger] job_tracker.spec_pendings()[i],
            spec_starts_after(final(self).rt(), tp as int),
            spec_starts_after(final(self).su(), tp as int),
            job_tracker.spec_pendings().len() == 0 ==> final(self).rt().plain_seq().len() == 0
                && final(self).su().plain_seq().len() == 0,
            final(self).update_before_clean == old(self).update_before_clean,
            final(self).compression_thresh == old(self).compression_thresh,
    {
        let trimming_point = self.trimming_point(job_tracker);

        if let Some(c) = self.compression_point {
            if trimming_point <= c {
                let t_p = self.plain_trimming_point(self.compression_point, job_tracker);

                match t_p {
                    Some(p) => self.do_compress(p, false),
                    None => self.do_compress_all(false),
                }

                if trimming_point < c {
                    self.compression_point = Some(trimming_point);
                }
            }
        }

        let range = TimeInterval::infinite_right(trimming_point);
        proof {
            self.rt().lemma_wf();
            self.su().lemma_wf();
            lemma_trim_starts_after(self.rt().plain_seq(), trimming_point);
            lemma_trim_starts_after(self.su().plain_seq(), trimming_point);
            if job_tracker.spec_pendings().len() == 0 {
                lemma_left_count_max(self.rt().plain_seq());
                lemma_left_count_max(self.su().plain_seq());
            }
        }
        let ghost r0 = self.rt();
        let ghost s0 = self.su();
        self.runtime.trim(&range);
        self.suspension.trim(&range);
        proof {
            layers::base::lemma_blocks_before_bound(r0.blocks(), trimming_point as int);
            layers::base::lemma_blocks_before_bound(s0.blocks(), trimming_point as int);
            lemma_skip_starts_after(r0.blocks(), trimming_point as int);
            lemma_skip_starts_after(s0.blocks(), trimming_point as int);
        }
        trimming_point
    }

    /// Trims the timeline and compresses it when it holds too many plain
    /// intervals. Returns the trimming point.
    fn clean(&mut self, job_tracker: &JobTracker) -> (tp: u64)
        requires
            old(self).wf(),
        ensures
            final(self).wf(),
            final(self).rt().current() == old(self).rt().current(),
            final(self).su().current() == old(self).su().current(),
            job_tracker.spec_pendings().len() == 0 ==> tp == u64::MAX,
            job_tracker.spec_pendings().len() > 0 ==> job_tracker.spec_pendings().contains(tp),
            forall|i: int| 0 <= i < job_tracker.spec_pendings().len() ==> tp <= #[trigger] job_tracker.spec_pendings()[i],
            spec_starts_after(final(self).rt(), tp as int),
            spec_starts_after(final(self).su(), tp as int),
            final(self).update_before_clean == old(self).update_before_clean,
            final(self).compression_thresh == old(self).compression_thresh,
    {
        let tp = self.trim(job_tracker);

        if self.weight() > self.compression_thresh {
            let ghost r0 = self.rt();
            let ghost s0 = self.su();
            self.compress(job_tracker);
            proof {
                let (r1, s1) = (self.rt(), self.su());
                if r1 == r0 && s1 == s0 {
                } else if exists|x: u64, nb: bool| #![trigger spec_compress_post(r0, r1, x, nb)]
                    spec_compress_post(r0, r1, x, nb) && spec_compress_post(s0, s1, x, nb) {
                    let (x, nb) = choose|x: u64, nb: bool| #![trigger spec_compress_post(r0, r1, x, nb)]
                        spec_compress_post(r0, r1, x, nb) && spec_compress_post(s0, s1, x, nb);
                    lemma_compress_keeps_after(r0, r1, tp as int, x, nb);
                    lemma_compress_keeps_after(s0, s1, tp as int, x, nb);
                } else {
                    let nb = choose|nb: bool| #![trigger spec_compress_all_post(r0, r1, nb)]
                        spec_compress_all_post(r0, r1, nb) && spec_compress_all_post(s0, s1, nb);
                    lemma_compress_all_keeps_after(r0, r1, tp as int, nb);
                    lemma_compress_all_keeps_after(s0, s1, tp as int, nb);
                }
            }
        }
        tp
    }

    /// The first cycle, after the oldest one, of a pending job above `prev`
    /// (the second oldest when there is no `prev`).
    fn next_compression_point(&self, prev: Option<u64>, job_tracker: &JobTracker) -> (r: Option<u64>)
        requires
            job_tracker.spec_pendings().len() > 0,
        ensures
            exists|s: Seq<u64>| #![trigger sorted_u64(s)] sorted_u64(s) && s.to_multiset() == job_tracker.spec_pendings().to_multiset() && r == match prev {
                Some(p) => first_above(s, 1, p),
                None => if s.len() > 1 {
                    Some(s[1])
                } else {
                    None
                },
            },
    {
        let pendings = job_tracker.pendings_first_cycle();
        let ghost s = pendings@;
        proof {
            assert(sorted_u64(s));
        }
        match prev {
            Some(p) => {
                let mut i: usize = 1;
                while i < pendings.len()
                    invariant
                        s == pendings@,
                        sorted_u64(s),
                        s.to_multiset() == job_tracker.spec_pendings().to_multiset(),
                        prev == Some(p),
                        1 <= i,
                        first_above(s, 1, p) == first_above(s, i as int, p),
                    decreases s.len() - i,
                {
                    if pendings[i] > p {
                        proof {
                            assert(first_above(s, i as int, p) == Some(pendings[i as int]));
                        }
                        return Some(pendings[i]);
                    }
                    i += 1;
                }
                proof {
                    assert(first_above(s, i as int, p) is None);
                }
                None
            },
            None => {
                if pendings.len() > 1 {
                    Some(pendings[1])
                } else {
                    None
                }
            },
        }
    }

    /// Time spent running during `range`.
    pub fn processor_time(&mut self, range: &Interval) -> (r: u64)
        requires
            old(self).wf(),
            range.a != Bound::Infinity,
            range.b != Bound::MinusInfinity,
            old(self).rt().current() matches Some(i) && i.spec_intersection(*range) is Some
                ==> range.b is Value,
        ensures
            final(self).wf(),
            layers::base::spec_same(old(self).rt(), final(self).rt()),
            final(self).su() == old(self).su(),
            r == old(self).rt().spec_coverage(*range),
    {
        self.runtime.time(range)
    }

    /// Time spent suspended during `range`.
    pub fn suspension_time(&mut self, range: &Interval) -> (r: u64)
        requires
            old(self).wf(),
            range.a != Bound::Infinity,
            range.b != Bound::MinusInfinity,
            old(self).su().current() matches Some(i) && i.spec_intersection(*range) is Some
                ==> range.b is Value,
        ensures
            final(self).wf(),
            layers::base::spec_same(old(self).su(), final(self).su()),
            final(self).rt() == old(self).rt(),
            r == old(self).su().spec_coverage(*range),
    {
        self.suspension.time(range)
    }

    /// The running intervals inside `range`, the open one last.
    pub fn runtime_intervals(&mut self, range: &Interval) -> (r: Vec<Interval>)
        requires
            old(self).wf(),
            range.a != Bound::Infinity,
            range.b != Bound::MinusInfinity,
        ensures
            final(self).wf(),
            layers::base::spec_same(old(self).rt(), final(self).rt()),
            final(self).su() == old(self).su(),
            r@ == crate::interval::isects(old(self).rt().plain_seq(), *range) + layers::base::open_part(
                old(self).rt().current(),
                *range,
            ),
    {
        self.runtime.plain_intervals(range)
    }

    /// The suspension intervals inside `range`, the open one last.
    pub fn suspension_intervals(&mut self, range: &Interval) -> (r: Vec<Interval>)
        requires
            old(self).wf(),
            range.a != Bound::Infinity,
            range.b != Bound::MinusInfinity,
        ensures
            final(self).wf(),
            final(self).rt() == old(self).rt(),
            layers::base::spec_same(old(self).su(), final(self).su()),
            r@ == crate::interval::isects(old(self).su().plain_seq(), *range) + layers::base::open_part(
                old(self).su().current(),
                *range,
            ),
    {
        self.suspension.plain_intervals(range)
    }

    /// The intervals of both layers inside a finite range are finite and
    /// non-empty; the running ones add up to no more than a `u64` holds.
    pub proof fn lemma_exec_bound(&self, range: Interval)
        requires
            self.wf(),
            range.a is Value,
            range.b is Value,
        ensures
            ({
                let v = crate::interval::isects(self.rt().plain_seq(), range) + layers::base::open_part(self.rt().current(), range);
                let w = crate::interval::isects(self.su().plain_seq(), range) + layers::base::open_part(self.su().current(), range);
                &&& all_finite(v)
                &&& forall|k: int| 0 <= k < v.len() ==> rank((#[trigger] v[k]).a) < rank(v[k].b)
                &&& crate::interval::sum_len(v) <= u64::MAX
                &&& all_finite(w)
                &&& forall|k: int| 0 <= k < w.len() ==> rank((#[trigger] w[k]).a) < rank(w[k].b)
            }),
    {
        self.rt().lemma_coverage_bound(range);
        self.su().lemma_coverage_bound(range);
    }

    /// Moves the compression point to the next pending job and compresses
    /// what lies before the pending job that follows it.
    fn compress(&mut self, job_tracker: &JobTracker)
        requires
            old(self).wf(),
            job_tracker.spec_pendings().len() > 0,
        ensures
            final(self).wf(),
            final(self).rt().current() == old(self).rt().current(),
            final(self).su().current() == old(self).su().current(),
            final(self).update_before_clean == old(self).update_before_clean,
            final(self).compression_thresh == old(self).compression_thresh,
            spec_compressed(old(self).rt(), final(self).rt(), old(self).su(), final(self).su()),
            exists|s: Seq<u64>|
                #![trigger sorted_u64(s)]
                sorted_u64(s) && s.to_multiset() == job_tracker.spec_pendings().to_multiset() && match spec_next_point(
                    s,
                    old(self).compression_point,
                ) {
                    None => final(self).compression_point == old(self).compression_point && final(self).rt()
                        == old(self).rt() && final(self).su() == old(self).su(),
                    Some(n) => final(self).compression_point == Some(n) && spec_compressed_towards(
                        job_tracker.spec_pendings(),
                        n,
                        old(self).rt(),
                        final(self).rt(),
                        old(self).su(),
                        final(self).su(),
                    ),
                },
    {
        let next_compression_point = self.next_compression_point(self.compression_point, job_tracker);
        let ghost s = choose|s: Seq<u64>|
            #![trigger sorted_u64(s)]
            sorted_u64(s) && s.to_multiset() == job_tracker.spec_pendings().to_multiset() && next_compression_point
                == spec_next_point(s, old(self).compression_point);

        if next_compression_point.is_some() {
            self.compression_point = next_compression_point;
            match self.plain_trimming_point(next_compression_point, job_tracker) {
                Some(c) => {
                    self.do_compress(c, true);
                    proof {
                        assert(spec_compress_post(old(self).rt(), self.rt(), c, true));
                        assert(spec_compress_post(old(self).su(), self.su(), c, true));
                    }
                },
                None => {
                    self.do_compress_all(true);
                    proof {
                        assert(spec_compress_all_post(old(self).rt(), self.rt(), true));
                    }
                },
            }
        }
    }

    /// Records `event` in both layers.
    pub fn update(&mut self, event: &TraceEvent)
        requires
            old(self).wf(),
            old(self).spec_accepts(*event),
        ensures
            final(self).wf(),
            ExecutionLayer::spec_step(old(self).rt(), *event, final(self).rt()),
            SuspensionLayer::spec_step(old(self).su(), *event, final(self).su()),
            final(self).spec_update_before_clean() == old(self).spec_update_before_clean(),
            final(self).spec_compression_thresh() == old(self).spec_compression_thresh(),
    {
        self.runtime.update(event);
        self.suspension.update(event);
    }

    /// The larger number of plain intervals of the two layers.
    fn weight(&self) -> (r: usize)
        ensures
            r == if self.rt().plain_seq().len() >= self.su().plain_seq().len() {
                self.rt().plain_seq().len()
            } else {
                self.su().plain_seq().len()
            },
    {
        let r = self.runtime.get_base().plain_interval_nb();
        let s = self.suspension.get_base().plain_interval_nb();
        if r >= s {
            r
        } else {
            s
        }
    }
}

/// Blocks left after dropping those starting before `t` start at or after `t`.
pub proof fn lemma_skip_starts_after(c: Seq<(Interval, u64)>, t: int)
    requires
        layers::base::blocks_ordered(c),
    ensures
        forall|i: int| 0 <= i < c.skip(blocks_before(c, t) as int).len() ==> rank(
            (#[trigger] c.skip(blocks_before(c, t) as int)[i]).0.a,
        ) >= t,
{
    lemma_blocks_before_first(c, t);
    let k = blocks_before(c, t) as int;
    layers::base::lemma_blocks_before_bound(c, t);
    assert forall|i: int| 0 <= i < c.skip(k).len() implies rank((#[trigger] c.skip(k)[i]).0.a) >= t by {
        assert(c.skip(k)[i] == c[k + i]);
        if i > 0 {
            assert(rank(c[k].0.b) <= rank(c[k + i].0.a));
            assert(layers::base::block_ok(c[k]));
        }
    }
}

/// The first block not counted by `blocks_before` starts at or after `t`.
pub proof fn lemma_blocks_before_first(c: Seq<(Interval, u64)>, t: int)
    ensures
        blocks_before(c, t) < c.len() ==> rank(c[blocks_before(c, t) as int].0.a) >= t,
    decreases c.len(),
{
    if c.len() > 0 && rank(c[0].0.a) < t {
        lemma_blocks_before_first(c.drop_first(), t);
        layers::base::lemma_blocks_before_bound(c.drop_first(), t);
        if blocks_before(c, t) < c.len() {
            assert(c[blocks_before(c, t) as int] == c.drop_first()[blocks_before(c.drop_first(), t) as int]);
        }
    }
}

/// Both layers compressed up to the same point, or entirely, or left as
/// they were.
pub open spec fn spec_compressed(rt0: BaseLayer, rt1: BaseLayer, su0: BaseLayer, su1: BaseLayer) -> bool {
    ||| (rt1 == rt0 && su1 == su0)
    ||| exists|x: u64, nb: bool| #![trigger spec_compress_post(rt0, rt1, x, nb)]
        spec_compress_post(rt0, rt1, x, nb) && spec_compress_post(su0, su1, x, nb)
    ||| exists|nb: bool| #![trigger spec_compress_all_post(rt0, rt1, nb)]
        spec_compress_all_post(rt0, rt1, nb) && spec_compress_all_post(su0, su1, nb)
}

/// Compressing up to `x` keeps every block and plain interval at or after `t`.
pub proof fn lemma_compress_keeps_after(base: BaseLayer, next: BaseLayer, t: int, x: u64, nb: bool)
    requires
        spec_starts_after(base, t),
        base.wf(),
        spec_compress_post(base, next, x, nb),
    ensures
        spec_starts_after(next, t),
{
    base.lemma_wf();
    let s = base.plain_seq();
    let c = base.blocks();
    let k = left_count(s, x) as int;
    crate::interval::lemma_left_count_splits(s, x);
    if k > 0 {
        assert(rank(s[0].a) >= t);
        let n = next.plain_seq();
        assert forall|i: int| 0 <= i < n.len() implies rank((#[trigger] n[i]).a) >= t by {
            assert(rank(s[k + i].a) >= t);
            if i == 0 && k < s.len() && s[k].spec_contains(x) {
            } else {
                assert(n[i] == s.skip(k)[i]);
            }
        }
        let nc = next.blocks();
        assert forall|i: int| 0 <= i < nc.len() implies rank((#[trigger] nc[i]).0.a) >= t by {
            if i < c.len() - 1 {
                assert(nc[i] == c[i]);
            } else if i == c.len() - 1 && c.len() > 0 {
                assert(rank(c[i].0.a) >= t);
            }
        }
    }
}

/// Compressing everything keeps every block at or after `t`.
pub proof fn lemma_compress_all_keeps_after(base: BaseLayer, next: BaseLayer, t: int, nb: bool)
    requires
        spec_starts_after(base, t),
        base.wf(),
        spec_compress_all_post(base, next, nb),
    ensures
        spec_starts_after(next, t),
{
    let s = base.plain_seq();
    let c = base.blocks();
    if s.len() > 0 {
        assert(rank(s[0].a) >= t);
        let nc = next.blocks();
        assert forall|i: int| 0 <= i < nc.len() implies rank((#[trigger] nc[i]).0.a) >= t by {
            if i < c.len() - 1 {
                assert(nc[i] == c[i]);
            } else if i == c.len() - 1 && c.len() > 0 {
                assert(rank(c[i].0.a) >= t);
            }
        }
    }
}

impl Default for Timeline {
    fn default() -> (r: Self)
        ensures
            r.wf(),
    {
        Self::new()
    }
}

} // verus!
