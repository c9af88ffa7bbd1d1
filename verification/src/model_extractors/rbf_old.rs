//! Request-bound functions with fixed-width steps, and the demand tracking
//! that feeds them.

use crate::events::{spec_is_suspension, spec_is_syscall_entry, EventData, TraceEvent};
use index_list::ListIndex;
use vstd::prelude::*;

pub use super::rbf::{Demand, Rbf, Step};
use super::rbf::{
    cheapest_from, merge_cost, spec_merge_cheapest, works_sorted, deltas_sorted, lemma_update_keeps_sorted, lemma_work_sum_nonneg, lemma_work_sum_skip, merge_pass_from, spec_tracker_accepts,
    spec_tracker_step, spec_trim_beyond, spec_update_steps, window_fits, work_sum, RBFSteps,
};

verus! {

/// Turns scheduling events into demands, and remembers whether the thread
/// was ever preempted during a job.
pub struct DemandTracker {
    inner: super::rbf::DemandTracker,
    was_preempted: bool,
}

impl DemandTracker {
    pub closed spec fn spec_inner(&self) -> super::rbf::DemandTracker {
        self.inner
    }

    pub closed spec fn spec_was_preempted(&self) -> bool {
        self.was_preempted
    }

    pub fn new() -> (r: Self)
        ensures
            r.spec_inner() == super::rbf::DemandTracker::new_spec(),
            !r.spec_was_preempted(),
    {
        Self { inner: super::rbf::DemandTracker::new(), was_preempted: false }
    }

    /// Consumes an event; returns the demand it completes, if any.
    pub fn update(&mut self, event: &TraceEvent) -> (r: Option<Demand>)
        requires
            spec_tracker_accepts(old(self).spec_inner(), *event),
        ensures
            (final(self).spec_inner(), r) == spec_tracker_step(old(self).spec_inner(), *event),
            final(self).spec_was_preempted() == (old(self).spec_was_preempted() || (
            event.ev is SchedSwitchedOut && !spec_is_suspension(event.ev)
                && old(self).spec_inner().arrival is Some)),
    {
        match event.ev {
            EventData::SchedSwitchedOut { .. } => {
                if !event.is_suspension() && self.inner.arrival.is_some() {
                    self.was_preempted = true;
                }
            },
            _ => {},
        }
        self.inner.update(event)
    }
}

/// Merges consecutive demands that arrive at the same rounded time, or
/// whose works add up to less than a minimum.
pub struct DemandAggregator {
    last_demand: Option<Demand>,
    min_work: Option<u64>,
    time_granularity_ns: Option<u64>,
}

impl DemandAggregator {
    pub closed spec fn spec_last(&self) -> Option<Demand> {
        self.last_demand
    }

    pub closed spec fn spec_min_work(&self) -> Option<u64> {
        self.min_work
    }

    pub closed spec fn spec_granularity(&self) -> Option<u64> {
        self.time_granularity_ns
    }

    pub open spec fn spec_should_aggregate(&self, d1: Demand, d2: Demand) -> bool {
        ||| d1.arrival == d2.arrival
        ||| (self.spec_min_work() matches Some(m) && d2.work + d1.work < m)
    }

    pub open spec fn spec_round(&self, arrival: u64) -> u64 {
        match self.spec_granularity() {
            Some(t) => (arrival - arrival % t) as u64,
            None => arrival,
        }
    }

    /// The demand that pushing `demand` gives back.
    pub open spec fn spec_push_out(&self, demand: Demand) -> Option<Demand> {
        let d = Demand { arrival: self.spec_round(demand.arrival), work: demand.work };
        match self.spec_last() {
            Some(l) => if self.spec_should_aggregate(l, d) {
                None
            } else {
                Some(l)
            },
            None => None,
        }
    }

    pub fn new(min_work: Option<u64>, time_granularity_ns: Option<u64>) -> (r: Self)
        requires
            time_granularity_ns matches Some(t) ==> t > 0,
        ensures
            r.spec_last() is None,
            r.spec_min_work() == min_work,
            r.spec_granularity() == time_granularity_ns,
    {
        Self { last_demand: None, min_work, time_granularity_ns }
    }

    pub fn should_aggregate(&self, d1: &Demand, d2: &Demand) -> (r: bool)
        requires
            self.spec_min_work() is Some ==> d1.work + d2.work <= u64::MAX,
        ensures
            r == self.spec_should_aggregate(*d1, *d2),
    {
        let mut ret = d1.arrival == d2.arrival;
        if let Some(min_work) = self.min_work {
            ret = ret || ((d2.work + d1.work) < min_work);
        }
        ret
    }

    fn round_arrival(&self, arrival: u64) -> (r: u64)
        requires
            self.spec_granularity() matches Some(t) ==> t > 0,
        ensures
            r == self.spec_round(arrival),
    {
        if let Some(t) = self.time_granularity_ns {
            assert(arrival % t <= arrival) by (nonlinear_arith)
                requires
                    t > 0,
            ;
            return arrival.saturating_sub(arrival % t);
        }
        arrival
    }

    /// Returns the pending demand, if any.
    pub fn flush(&mut self) -> (r: Option<Demand>)
        ensures
            r == old(self).spec_last(),
            final(self).spec_last() is None,
            final(self).spec_min_work() == old(self).spec_min_work(),
            final(self).spec_granularity() == old(self).spec_granularity(),
    {
        self.last_demand.take()
    }

    /// Pushes a demand; returns the previous one when it cannot be merged
    /// with it.
    pub fn push(&mut self, demand: Demand) -> (r: Option<Demand>)
        requires
            old(self).spec_granularity() matches Some(t) ==> t > 0,
            old(self).spec_last() matches Some(l) ==> l.work + demand.work <= u64::MAX,
        ensures
            final(self).spec_min_work() == old(self).spec_min_work(),
            final(self).spec_granularity() == old(self).spec_granularity(),
            r == old(self).spec_push_out(demand),
            ({
                let d = Demand { arrival: old(self).spec_round(demand.arrival), work: demand.work };
                match old(self).spec_last() {
                    Some(l) => if old(self).spec_should_aggregate(l, d) {
                        &&& r is None
                        &&& final(self).spec_last() == Some(Demand { arrival: l.arrival, work: (l.work + d.work) as u64 })
                    } else {
                        &&& r == Some(l)
                        &&& final(self).spec_last() == Some(d)
                    },
                    None => {
                        &&& r is None
                        &&& final(self).spec_last() == Some(d)
                    },
                }
            }),
    {
        let arrival = self.round_arrival(demand.arrival);
        let demand = Demand { arrival, work: demand.work };
        match self.last_demand.take() {
            Some(d) => {
                if self.should_aggregate(&d, &demand) {
                    self.last_demand = Some(Demand { arrival: d.arrival, work: d.work + demand.work });
                    None
                } else {
                    self.last_demand = Some(demand);
                    Some(d)
                }
            },
            None => {
                self.last_demand = Some(demand);
                None
            },
        }
    }
}

pub const RBF_UPDATE_PERIOD: u64 = 10_000_000_000;

pub const RBF_UPDATE_BUDGET: usize = 10_000;

/// Counts updates in periods of time, to detect too high update rates.
pub struct RbfUpdateRateMonitor {
    period: u64,
    budget: usize,
    count: usize,
    period_start: Option<u64>,
}

impl RbfUpdateRateMonitor {
    pub closed spec fn spec_period(&self) -> u64 {
        self.period
    }

    pub closed spec fn spec_budget(&self) -> usize {
        self.budget
    }

    pub closed spec fn spec_count(&self) -> usize {
        self.count
    }

    pub closed spec fn spec_period_start(&self) -> Option<u64> {
        self.period_start
    }

    pub fn new(period: u64, budget: usize) -> (r: Self)
        ensures
            r.spec_period() == period,
            r.spec_budget() == budget,
            r.spec_count() == 0,
            r.spec_period_start() is None,
    {
        Self { period, budget, count: 0, period_start: None }
    }

    /// Consumes one unit of budget at time `ts`; returns true when the
    /// budget of the current period is exceeded. A period starts at the
    /// first update, and again at the first update a period after.
    pub fn update(&mut self, ts: u64) -> (r: bool)
        requires
            old(self).spec_period_start() matches Some(s) ==> s <= ts,
            old(self).spec_count() < usize::MAX,
        ensures
            final(self).spec_period() == old(self).spec_period(),
            final(self).spec_budget() == old(self).spec_budget(),
            match old(self).spec_period_start() {
                None => !r && final(self).spec_count() == 0 && final(self).spec_period_start() == Some(ts),
                Some(s) => if ts - s >= old(self).spec_period() {
                    !r && final(self).spec_count() == 0 && final(self).spec_period_start() == Some(ts)
                } else {
                    &&& final(self).spec_count() == old(self).spec_count() + 1
                    &&& final(self).spec_period_start() == Some(s)
                    &&& r == (final(self).spec_count() >= old(self).spec_budget())
                },
            },
    {
        match self.period_start {
            None => {
                self.count = 0;
                self.period_start = Some(ts);
                false
            },
            Some(period_start) => {
                if ts - period_start >= self.period {
                    self.count = 0;
                    self.period_start = Some(ts);
                    return false;
                }
                self.count += 1;
                self.count >= self.budget
            },
        }
    }
}

/// Arrivals of `w` do not decrease and stay below `u64::MAX`.
pub open spec fn arrivals_ordered(w: Seq<Demand>) -> bool {
    &&& forall|i: int, j: int| 0 <= i <= j < w.len() ==> (#[trigger] w[i]).arrival <= (#[trigger] w[j]).arrival
    &&& w.len() > 0 ==> w.last().arrival < u64::MAX
}

/// Time from the arrival of `w[i]` to the arrival of the last demand,
/// inclusive.
pub open spec fn span(w: Seq<Demand>, i: int) -> int {
    w.last().arrival - w[i].arrival + 1
}

/// Total work of `w[i..j]`.
pub open spec fn work_between(w: Seq<Demand>, i: int, j: int) -> int {
    work_sum(w.subrange(i, j))
}

/// Tracks the largest work demanded in windows shorter than `delta`.
#[derive(PartialEq, Eq, Clone, Copy, Debug, Structural)]
pub struct StepTracker {
    pub delta: u64,
    pub first: usize,
    pub curr_demand: u64,
    pub max_demand: u64,
}

/// `t` covers, in `w`, the longest suffix shorter than its delta.
pub open spec fn tracks(t: StepTracker, w: Seq<Demand>) -> bool {
    &&& t.delta >= 2
    &&& t.first < w.len()
    &&& t.curr_demand == work_between(w, t.first as int, w.len() as int)
    &&& span(w, t.first as int) < t.delta
    &&& t.first == 0 || span(w, t.first - 1) >= t.delta
    &&& t.max_demand >= t.curr_demand
}

impl StepTracker {
    pub fn new(delta: u64) -> (r: Self)
        ensures
            r == (StepTracker { delta, first: 0, curr_demand: 0, max_demand: 0 }),
    {
        Self { delta, first: 0, curr_demand: 0, max_demand: 0 }
    }

    fn window_length(&self, window: &[Demand]) -> (r: u64)
        requires
            self.first < window@.len(),
            arrivals_ordered(window@),
        ensures
            r == span(window@, self.first as int),
    {
        let first_demand = window[self.first];
        let last_demand = window[window.len() - 1];
        last_demand.arrival - first_demand.arrival + 1
    }

    fn is_overflowing(&self, window: &[Demand]) -> (r: bool)
        requires
            self.first < window@.len(),
            arrivals_ordered(window@),
        ensures
            r == (span(window@, self.first as int) >= self.delta),
    {
        let delta = self.window_length(window);
        delta >= self.delta
    }

    /// Takes the last demand of `window` into account, dropping the oldest
    /// demands that no longer fit in the delta. Returns true if any was
    /// dropped.
    pub fn push_demand(&mut self, window: &[Demand]) -> (r: bool)
        requires
            window@.len() > 0,
            arrivals_ordered(window@),
            work_sum(window@) <= u64::MAX,
            old(self).delta >= 2,
            old(self).first < window@.len(),
            old(self).curr_demand == work_between(window@, old(self).first as int, window@.len() - 1),
            old(self).first == 0 || span(window@, old(self).first - 1) >= old(self).delta,
        ensures
            tracks(*final(self), window@),
            final(self).delta == old(self).delta,
            final(self).first >= old(self).first,
            r == (final(self).first > old(self).first),
            final(self).max_demand == if old(self).max_demand >= final(self).curr_demand {
                old(self).max_demand
            } else {
                final(self).curr_demand
            },
    {
        let ghost w = window@;
        let n = window.len();
        let last_demand = window[n - 1];
        proof {
            lemma_work_between_bound(w, self.first as int, n as int);
            lemma_work_between_push(w, self.first as int, n - 1);
        }
        self.curr_demand += last_demand.work;
        let mut overflow = false;
        while self.is_overflowing(window)
            invariant
                w == window@,
                n == w.len(),
                arrivals_ordered(w),
                work_sum(w) <= u64::MAX,
                self.delta == old(self).delta,
                self.delta >= 2,
                old(self).first <= self.first < n,
                self.curr_demand == work_between(w, self.first as int, n as int),
                self.first == 0 || span(w, self.first - 1) >= self.delta,
                overflow == (self.first > old(self).first),
                self.max_demand == old(self).max_demand,
            decreases n - self.first,
        {
            overflow = true;
            proof {
                assert(self.first < n - 1) by {
                    if self.first == n - 1 {
                        assert(span(w, self.first as int) == 1);
                    }
                }
                lemma_work_between_first(w, self.first as int, n as int);
                lemma_work_between_nonneg(w, self.first + 1, n as int);
            }
            self.curr_demand -= window[self.first].work;
            self.first += 1;
        }
        if self.curr_demand > self.max_demand {
            self.max_demand = self.curr_demand;
        }
        overflow
    }

    /// The tracker for a delta larger by `next_width`, covering the longest
    /// suffix of `window` shorter than it.
    pub fn next_tracker(&self, window: &[Demand], next_width: u64) -> (r: Self)
        requires
            tracks(*self, window@),
            arrivals_ordered(window@),
            work_sum(window@) <= u64::MAX,
            self.delta + next_width <= u64::MAX,
        ensures
            tracks(r, window@),
            r.delta == self.delta + next_width,
            r.first <= self.first,
            r.max_demand == if self.max_demand >= r.curr_demand {
                self.max_demand
            } else {
                r.curr_demand
            },
    {
        let ghost w = window@;
        let n = window.len();
        let mut ret = Self {
            delta: self.delta + next_width,
            first: self.first,
            curr_demand: self.curr_demand,
            max_demand: self.max_demand,
        };
        while ret.first > 0
            invariant
                w == window@,
                n == w.len(),
                arrivals_ordered(w),
                work_sum(w) <= u64::MAX,
                ret.delta == self.delta + next_width,
                ret.delta >= 2,
                ret.first <= self.first < n,
                ret.curr_demand == work_between(w, ret.first as int, n as int),
                span(w, ret.first as int) < ret.delta,
                ret.max_demand == self.max_demand,
            ensures
                ret.delta == self.delta + next_width,
                ret.first <= self.first < n,
                ret.curr_demand == work_between(w, ret.first as int, n as int),
                span(w, ret.first as int) < ret.delta,
                ret.first == 0 || span(w, ret.first - 1) >= ret.delta,
                ret.max_demand == self.max_demand,
            decreases ret.first,
        {
            ret.first -= 1;
            if ret.is_overflowing(window) {
                ret.first += 1;
                break;
            }
            proof {
                lemma_work_between_first(w, ret.first as int, n as int);
                lemma_work_between_bound(w, ret.first as int, n as int);
            }
            ret.curr_demand += window[ret.first].work;
        }
        if ret.curr_demand > ret.max_demand {
            ret.max_demand = ret.curr_demand;
        }
        ret
    }
}

proof fn lemma_work_between_nonneg(w: Seq<Demand>, i: int, j: int)
    requires
        0 <= i <= j <= w.len(),
    ensures
        work_between(w, i, j) >= 0,
    decreases j - i,
{
    if i < j {
        lemma_work_between_push(w, i, j - 1);
        lemma_work_between_nonneg(w, i, j - 1);
    } else {
        assert(w.subrange(i, j).len() == 0);
    }
}

/// Adding the next demand to a window adds its work.
proof fn lemma_work_between_push(w: Seq<Demand>, i: int, j: int)
    requires
        0 <= i <= j < w.len(),
    ensures
        work_between(w, i, j + 1) == work_between(w, i, j) + w[j].work,
{
    assert(w.subrange(i, j + 1).drop_last() == w.subrange(i, j));
    assert(w.subrange(i, j + 1).last() == w[j]);
}

/// Dropping the first demand of a window subtracts its work.
proof fn lemma_work_between_first(w: Seq<Demand>, i: int, j: int)
    requires
        0 <= i < j <= w.len(),
    ensures
        work_between(w, i, j) == w[i].work + work_between(w, i + 1, j),
    decreases j - i,
{
    if j == i + 1 {
        lemma_work_between_push(w, i, i);
        assert(w.subrange(i, i).len() == 0);
        assert(w.subrange(i + 1, j).len() == 0);
    } else {
        lemma_work_between_first(w, i, j - 1);
        lemma_work_between_push(w, i, j - 1);
        lemma_work_between_push(w, i + 1, j - 1);
    }
}

/// A window's work is at most the work of the whole sequence.
proof fn lemma_work_between_bound(w: Seq<Demand>, i: int, j: int)
    requires
        0 <= i <= j <= w.len(),
    ensures
        0 <= work_between(w, i, j) <= work_sum(w),
    decreases i + (w.len() - j),
{
    lemma_work_between_nonneg(w, i, j);
    if i > 0 {
        lemma_work_between_bound(w, i - 1, j);
        lemma_work_between_first(w, i - 1, j);
    } else if j < w.len() {
        lemma_work_between_bound(w, i, j + 1);
        lemma_work_between_push(w, i, j);
    } else {
        assert(w.subrange(0, w.len() as int) == w);
    }
}

/// Default step widths, in nanoseconds.
pub const RBF_DEFAULT_STEP_WIDTHS: [u64; 42] = [
    1_000_000, 1_000_000, 1_000_000, 1_000_000, 1_000_000, 5_000_000, 10_000_000, 10_000_000,
    10_000_000, 10_000_000, 10_000_000, 10_000_000, 10_000_000, 10_000_000, 10_000_000,
    100_000_000, 100_000_000, 100_000_000, 100_000_000, 100_000_000, 100_000_000, 100_000_000,
    100_000_000, 100_000_000, 500_000_000, 500_000_000, 500_000_000, 500_000_000, 500_000_000,
    500_000_000, 500_000_000, 500_000_000, 500_000_000, 500_000_000, 500_000_000, 500_000_000,
    500_000_000, 500_000_000, 500_000_000, 500_000_000, 500_000_000, 500_000_000,
];

pub const FIXED_RBF_TRIM_PERIOD: usize = 64;

/// The steps of fixed-width trackers: each step starts where the previous
/// tracker's delta ends.
pub open spec fn spec_steps(ts: Seq<StepTracker>) -> Seq<Step> {
    Seq::new(
        ts.len(),
        |i: int|
            Step {
                delta: if i == 0 {
                    1
                } else {
                    ts[i - 1].delta
                },
                work: ts[i].max_demand,
            },
    )
}

/// Sum of the first `n` widths.
pub open spec fn width_sum(ws: Seq<u64>, n: int) -> int
    decreases n,
{
    if n <= 0 {
        0
    } else {
        width_sum(ws, n - 1) + ws[n - 1]
    }
}

proof fn lemma_width_sum_mono(ws: Seq<u64>, a: int, b: int)
    requires
        0 <= a <= b <= ws.len(),
        forall|i: int| 0 <= i < ws.len() ==> #[trigger] ws[i] >= 1,
    ensures
        width_sum(ws, a) + (b - a) <= width_sum(ws, b),
    decreases b - a,
{
    if a < b {
        lemma_width_sum_mono(ws, a, b - 1);
    }
}

/// Along trackers with growing deltas, the first demand covered does not
/// move forward.
proof fn lemma_firsts_ordered(ti: StepTracker, tj: StepTracker, w: Seq<Demand>)
    requires
        tracks(ti, w),
        tracks(tj, w),
        arrivals_ordered(w),
        ti.delta < tj.delta,
    ensures
        tj.first <= ti.first,
{
    if tj.first > ti.first {
        assert(w[ti.first as int].arrival <= w[tj.first - 1].arrival);
    }
}

/// How many trackers a switch to fixed widths makes for a window spanning
/// `dmax`: one per width, up to the first whose delta goes beyond `dmax`.
pub open spec fn tracker_count(ws: Seq<u64>, dmax: int, m: int) -> int
    decreases ws.len() - m,
{
    if m >= ws.len() {
        ws.len() as int
    } else if 1 + width_sum(ws, m) > dmax {
        m
    } else {
        tracker_count(ws, dmax, m + 1)
    }
}

/// The position of the first step, from `i` on, whose delta is at most
/// `x`; the number of steps when there is none.
pub open spec fn first_at_most(s: Seq<(u64, u64)>, i: int, x: int) -> int
    decreases s.len() - i,
{
    if i < 0 || i >= s.len() {
        s.len() as int
    } else if s[i].0 <= x {
        i
    } else {
        first_at_most(s, i + 1, x)
    }
}

/// The step that raises the work of fixed-width tracker `j` on a switch:
/// the steps are swept in order, each one raising the trackers whose step
/// starts at or after its delta, until one starts before it.
pub open spec fn sweep_at(s: Seq<(u64, u64)>, ws: Seq<u64>, j: int) -> int
    decreases j,
{
    let start = if j <= 0 {
        0
    } else {
        sweep_at(s, ws, j - 1)
    };
    first_at_most(s, start, 1 + width_sum(ws, j))
}

proof fn lemma_first_at_most(s: Seq<(u64, u64)>, i: int, x: int)
    requires
        0 <= i <= s.len(),
    ensures
        i <= first_at_most(s, i, x) <= s.len(),
        forall|t: int| i <= t < first_at_most(s, i, x) ==> (#[trigger] s[t]).0 > x,
        first_at_most(s, i, x) < s.len() ==> s[first_at_most(s, i, x)].0 <= x,
    decreases s.len() - i,
{
    if i < s.len() && s[i].0 > x {
        lemma_first_at_most(s, i + 1, x);
    }
}

proof fn lemma_sweep_at(s: Seq<(u64, u64)>, ws: Seq<u64>, j: int)
    requires
        0 <= j,
    ensures
        0 <= sweep_at(s, ws, j) <= s.len(),
        j > 0 ==> sweep_at(s, ws, j - 1) <= sweep_at(s, ws, j),
        forall|t: int|
            (if j <= 0 { 0 } else { sweep_at(s, ws, j - 1) }) <= t < sweep_at(s, ws, j) ==> (#[trigger] s[t]).0
                > 1 + width_sum(ws, j),
        sweep_at(s, ws, j) < s.len() ==> s[sweep_at(s, ws, j)].0 <= 1 + width_sum(ws, j),
    decreases j,
{
    if j > 0 {
        lemma_sweep_at(s, ws, j - 1);
        lemma_first_at_most(s, sweep_at(s, ws, j - 1), 1 + width_sum(ws, j));
    } else {
        lemma_first_at_most(s, 0, 1 + width_sum(ws, j));
    }
}

proof fn lemma_tracker_count(ws: Seq<u64>, dmax: int, m: int)
    requires
        1 <= m <= ws.len(),
    ensures
        m <= tracker_count(ws, dmax, m) <= ws.len(),
        forall|q: int| m <= q < tracker_count(ws, dmax, m) ==> 1 + #[trigger] width_sum(ws, q) <= dmax,
        tracker_count(ws, dmax, m) < ws.len() ==> 1 + width_sum(ws, tracker_count(ws, dmax, m)) > dmax,
    decreases ws.len() - m,
{
    if m < ws.len() && 1 + width_sum(ws, m) <= dmax {
        lemma_tracker_count(ws, dmax, m + 1);
    }
}

proof fn lemma_tracker_count_at(ws: Seq<u64>, dmax: int, m: int, c: int)
    requires
        1 <= m <= c <= ws.len(),
        forall|q: int| m <= q < c ==> 1 + #[trigger] width_sum(ws, q) <= dmax,
        c == ws.len() || 1 + width_sum(ws, c) > dmax,
    ensures
        tracker_count(ws, dmax, m) == c,
    decreases c - m,
{
    if m < c {
        lemma_tracker_count_at(ws, dmax, m + 1, c);
    }
}

proof fn lemma_sweep_mono(s: Seq<(u64, u64)>, ws: Seq<u64>, a: int, b: int)
    requires
        0 <= a <= b,
    ensures
        sweep_at(s, ws, a) <= sweep_at(s, ws, b),
    decreases b - a,
{
    if a < b {
        lemma_sweep_mono(s, ws, a, b - 1);
        lemma_sweep_at(s, ws, b);
    }
}

/// RBF extractor with fixed step widths.
pub struct FixedRbfExtractor {
    next_step_width: usize,
    step_widths: Vec<u64>,
    trackers: Vec<StepTracker>,
    trim_count: usize,
}

impl FixedRbfExtractor {
    pub closed spec fn spec_trackers(&self) -> Seq<StepTracker> {
        self.trackers@
    }

    pub closed spec fn spec_widths(&self) -> Seq<u64> {
        self.step_widths@
    }

    pub closed spec fn spec_next_width(&self) -> usize {
        self.next_step_width
    }

    /// The trackers' deltas grow, and the widths not used yet, added to the
    /// largest delta, still fit in `u64`. Each width used adds one tracker.
    pub closed spec fn wf(&self) -> bool {
        let ws = self.step_widths@;
        let ts = self.trackers@;
        &&& ws.len() > 0
        &&& self.trim_count < FIXED_RBF_TRIM_PERIOD
        &&& self.next_step_width <= ws.len()
        &&& self.next_step_width <= ts.len() <= self.next_step_width + ws.len()
        &&& ts.len() == 0 ==> self.next_step_width == 0
        &&& forall|i: int| 0 <= i < ws.len() ==> #[trigger] ws[i] >= 1
        &&& 1 + width_sum(ws, ws.len() as int) <= u64::MAX
        &&& forall|i: int| 0 <= i < ts.len() ==> (#[trigger] ts[i]).delta >= 2
        &&& forall|a: int, b: int| 0 <= a < b < ts.len() ==> (#[trigger] ts[a]).delta < (#[trigger] ts[b]).delta
        &&& ts.len() > 0 ==> ts.last().delta + width_sum(ws, ws.len() as int) - width_sum(
            ws,
            self.next_step_width as int,
        ) <= u64::MAX
    }

    pub closed spec fn spec_trim_count(&self) -> usize {
        self.trim_count
    }

    pub fn new(step_widths: Vec<u64>) -> (r: Self)
        requires
            step_widths@.len() > 0,
            forall|i: int| 0 <= i < step_widths@.len() ==> #[trigger] step_widths@[i] >= 1,
            1 + width_sum(step_widths@, step_widths@.len() as int) <= u64::MAX,
        ensures
            r.wf(),
            r.spec_trackers() == Seq::<StepTracker>::empty(),
            r.spec_widths() == step_widths@,
            r.spec_next_width() == 0,
            r.spec_trim_count() == 0,
    {
        Self { next_step_width: 0, step_widths, trackers: Vec::new(), trim_count: 0 }
    }

    /// The steps of the RBF.
    pub fn steps(&self) -> (r: Vec<Step>)
        ensures
            r@ == spec_steps(self.spec_trackers()),
    {
        let mut ret: Vec<Step> = Vec::new();
        let mut last_delta: u64 = 1;
        let mut i: usize = 0;
        while i < self.trackers.len()
            invariant
                0 <= i <= self.trackers@.len(),
                ret@ == spec_steps(self.trackers@).take(i as int),
                last_delta == if i == 0 {
                    1
                } else {
                    self.trackers@[i - 1].delta
                },
            decreases self.trackers@.len() - i,
        {
            let t = self.trackers[i];
            ret.push(Step { delta: last_delta, work: t.max_demand });
            last_delta = t.delta;
            i += 1;
            proof {
                assert(ret@ =~= spec_steps(self.trackers@).take(i as int));
            }
        }
        proof {
            assert(spec_steps(self.trackers@).take(i as int) =~= spec_steps(self.trackers@));
        }
        ret
    }

    pub fn is_empty(&self) -> (r: bool)
        ensures
            r == (self.spec_trackers().len() == 0),
    {
        self.trackers.len() == 0
    }

    /// Takes the last demand of `window` into account: every tracker moves
    /// on, and while the widest one drops demands, wider trackers are added
    /// until the step widths run out.
    pub fn on_window_update(&mut self, window: &[Demand])
        requires
            old(self).wf(),
            window@.len() > 0,
            arrivals_ordered(window@),
            work_sum(window@) <= u64::MAX,
            old(self).spec_trackers().len() == 0 ==> window@.len() == 1,
            old(self).spec_trackers().len() > 0 ==> window@.len() > 1 && forall|i: int|
                0 <= i < old(self).spec_trackers().len() ==> tracks(
                    #[trigger] old(self).spec_trackers()[i],
                    window@.drop_last(),
                ),
        ensures
            final(self).wf(),
            final(self).spec_widths() == old(self).spec_widths(),
            final(self).spec_trim_count() == old(self).spec_trim_count(),
            final(self).spec_trackers().len() >= old(self).spec_trackers().len(),
            final(self).spec_trackers().len() > 0,
            forall|i: int| 0 <= i < final(self).spec_trackers().len() ==> tracks(
                #[trigger] final(self).spec_trackers()[i],
                window@,
            ),
            final(self).spec_next_width() == old(self).spec_next_width() + (final(self).spec_trackers().len()
                - old(self).spec_trackers().len()),
            forall|i: int|
                0 <= i < old(self).spec_trackers().len() ==> {
                    let t0 = old(self).spec_trackers()[i];
                    let t1 = #[trigger] final(self).spec_trackers()[i];
                    &&& t1.delta == t0.delta
                    &&& t1.max_demand == if t0.max_demand >= t1.curr_demand {
                        t0.max_demand
                    } else {
                        t1.curr_demand
                    }
                },
            old(self).spec_trackers().len() == 0 ==> final(self).spec_trackers()[0].delta == 1
                + old(self).spec_widths()[0] && final(self).spec_trackers()[0].max_demand
                == final(self).spec_trackers()[0].curr_demand,
            forall|i: int|
                0 < i && old(self).spec_trackers().len() <= i < final(self).spec_trackers().len() ==> {
                    let prev = final(self).spec_trackers()[i - 1];
                    let t1 = #[trigger] final(self).spec_trackers()[i];
                    &&& t1.delta == prev.delta + old(self).spec_widths()[old(self).spec_next_width() + i - old(
                        self,
                    ).spec_trackers().len()]
                    &&& t1.max_demand == if prev.max_demand >= t1.curr_demand {
                        prev.max_demand
                    } else {
                        t1.curr_demand
                    }
                },
    {
        let ghost w = window@;
        let ghost ws = self.step_widths@;
        if self.trackers.len() == 0 {
            proof {
                lemma_width_sum_mono(ws, 1, ws.len() as int);
                reveal_with_fuel(width_sum, 2);
                assert(w.subrange(0, 0).len() == 0);
            }
            self.trackers.push(StepTracker::new(1 + self.step_widths[0]));
            self.next_step_width += 1;
        } else {
            proof {
                let wd = w.drop_last();
                assert forall|i: int| 0 <= i < self.trackers@.len() implies {
                    let t = #[trigger] self.trackers@[i];
                    &&& t.first < w.len()
                    &&& t.curr_demand == work_between(w, t.first as int, w.len() - 1)
                    &&& t.first == 0 || span(w, t.first - 1) >= t.delta
                } by {
                    let t = self.trackers@[i];
                    assert(tracks(t, wd));
                    assert(wd.subrange(t.first as int, wd.len() as int) == w.subrange(t.first as int, w.len() - 1));
                    if t.first > 0 {
                        assert(wd[t.first - 1] == w[t.first - 1]);
                        assert(wd.last().arrival <= w.last().arrival);
                    }
                }
            }
        }
        let ghost n0 = self.trackers@.len();
        let ghost ts0 = self.trackers@;
        let ghost next1 = self.next_step_width;
        let mut last_overflow = false;
        let mut i: usize = 0;
        while i < self.trackers.len()
            invariant
                w == window@,
                ws == self.step_widths@,
                n0 == self.trackers@.len(),
                n0 == ts0.len(),
                n0 > 0,
                arrivals_ordered(w),
                work_sum(w) <= u64::MAX,
                0 <= i <= n0,
                self.next_step_width <= n0 <= self.next_step_width + ws.len(),
                self.next_step_width <= ws.len(),
                self.next_step_width == next1,
                forall|k: int| 0 <= k < ws.len() ==> #[trigger] ws[k] >= 1,
                1 + width_sum(ws, ws.len() as int) <= u64::MAX,
                forall|k: int| 0 <= k < ts0.len() ==> (#[trigger] ts0[k]).delta >= 2,
                forall|a: int, b: int| 0 <= a < b < ts0.len() ==> (#[trigger] ts0[a]).delta < (#[trigger] ts0[b]).delta,
                ts0.last().delta + width_sum(ws, ws.len() as int) - width_sum(ws, self.next_step_width as int)
                    <= u64::MAX,
                forall|k: int| 0 <= k < n0 ==> #[trigger] self.trackers@[k].delta == ts0[k].delta,
                forall|k: int| 0 <= k < i ==> (#[trigger] self.trackers@[k]).max_demand == if ts0[k].max_demand
                    >= self.trackers@[k].curr_demand {
                    ts0[k].max_demand
                } else {
                    self.trackers@[k].curr_demand
                },
                forall|k: int| i <= k < n0 ==> #[trigger] self.trackers@[k] == ts0[k],
                forall|k: int| 0 <= k < i ==> tracks(#[trigger] self.trackers@[k], w),
                forall|k: int| i <= k < n0 ==> {
                    let t = #[trigger] self.trackers@[k];
                    &&& t.delta >= 2
                    &&& t.first < w.len()
                    &&& t.curr_demand == work_between(w, t.first as int, w.len() - 1)
                    &&& t.first == 0 || span(w, t.first - 1) >= t.delta
                },
                self.step_widths@.len() > 0,
                self.trim_count == old(self).trim_count,
                self.trim_count < FIXED_RBF_TRIM_PERIOD,
            decreases n0 - i,
        {
            let mut t = self.trackers[i];
            last_overflow = t.push_demand(window);
            self.trackers.set(i, t);
            i += 1;
        }
        proof {
            let ts = self.trackers@;
            assert forall|a: int, b: int| 0 <= a < b < ts.len() implies (#[trigger] ts[a]).delta < (
            #[trigger] ts[b]).delta by {
                assert(ts0[a].delta < ts0[b].delta);
            }
            assert(ts.last().delta == ts0.last().delta);
        }
        let ghost ts1 = self.trackers@;
        while last_overflow && self.next_step_width < self.step_widths.len()
            invariant
                w == window@,
                ws == self.step_widths@,
                arrivals_ordered(w),
                work_sum(w) <= u64::MAX,
                self.wf(),
                self.trackers@.len() > 0,
                self.trackers@.len() >= n0,
                n0 == ts1.len(),
                forall|k: int| 0 <= k < self.trackers@.len() ==> tracks(#[trigger] self.trackers@[k], w),
                self.trim_count == old(self).trim_count,
                forall|k: int| 0 <= k < n0 ==> #[trigger] self.trackers@[k] == ts1[k],
                self.next_step_width == next1 + (self.trackers@.len() - n0),
                forall|k: int|
                    0 < k && n0 <= k < self.trackers@.len() ==> {
                        let prev = self.trackers@[k - 1];
                        let t1 = #[trigger] self.trackers@[k];
                        &&& t1.delta == prev.delta + ws[next1 + k - n0]
                        &&& t1.max_demand == if prev.max_demand >= t1.curr_demand {
                            prev.max_demand
                        } else {
                            t1.curr_demand
                        }
                    },
            decreases ws.len() - self.next_step_width,
        {
            let n = self.trackers.len();
            let prev_tracker = self.trackers[n - 1];
            let next_width = self.step_widths[self.next_step_width];
            let ghost nx = self.next_step_width as int;
            proof {
                lemma_width_sum_mono(ws, nx + 1, ws.len() as int);
                assert(width_sum(ws, nx + 1) == width_sum(ws, nx) + ws[nx]);
            }
            let new_tracker = prev_tracker.next_tracker(window, next_width);
            let ghost ts = self.trackers@;
            self.trackers.push(new_tracker);
            self.next_step_width += 1;
            proof {
                let ts2 = self.trackers@;
                assert forall|a: int, b: int| 0 <= a < b < ts2.len() implies (#[trigger] ts2[a]).delta < (
                #[trigger] ts2[b]).delta by {
                    if b == n {
                        if a < n - 1 {
                            assert(ts[a].delta < ts[n - 1].delta);
                        }
                    } else {
                        assert(ts[a].delta < ts[b].delta);
                    }
                }
                assert(forall|k: int| 0 <= k < n ==> ts2[k] == ts[k]);
            }
        }
    }

    /// Every few updates, once all trackers exist, drops the demands that no
    /// tracker covers any more.
    pub fn trim_window(&mut self, window: &mut Vec<Demand>)
        requires
            old(self).wf(),
            old(window)@.len() > 0,
            arrivals_ordered(old(window)@),
            forall|i: int| 0 <= i < old(self).spec_trackers().len() ==> tracks(
                #[trigger] old(self).spec_trackers()[i],
                old(window)@,
            ),
        ensures
            final(self).wf(),
            final(self).spec_widths() == old(self).spec_widths(),
            final(self).spec_trackers().len() == old(self).spec_trackers().len(),
            final(window)@.len() > 0,
            arrivals_ordered(final(window)@),
            forall|i: int| 0 <= i < final(self).spec_trackers().len() ==> tracks(
                #[trigger] final(self).spec_trackers()[i],
                final(window)@,
            ),
            exists|k: int| 0 <= k < old(window)@.len() && final(window)@ == old(window)@.skip(k),
    {
        let ghost w = window@;
        proof {
            assert(w.skip(0) == w);
        }
        if self.trackers.len() < self.step_widths.len() {
            return;
        }
        self.trim_count += 1;
        if self.trim_count < FIXED_RBF_TRIM_PERIOD {
            return;
        }
        self.trim_count = 0;
        let n = self.trackers.len();
        let to_pop = self.trackers[n - 1].first;
        if to_pop == 0 {
            return;
        }
        proof {
            let ts = self.trackers@;
            let ws = self.step_widths@;
            assert forall|i: int| 0 <= i < n implies (#[trigger] ts[i]).first >= to_pop by {
                assert(tracks(old(self).spec_trackers()[i], old(window)@));
                assert(tracks(old(self).spec_trackers()[n - 1], old(window)@));
                if i < n - 1 {
                    assert(ts[i].delta < ts[n - 1].delta);
                    lemma_firsts_ordered(ts[i], ts[n - 1], w);
                }
            }
        }
        proof {
            assert(self.trackers@[n - 1] == old(self).spec_trackers()[n - 1]);
            assert(tracks(old(self).spec_trackers()[n - 1], w));
            assert(to_pop < w.len());
        }
        let rest = window.split_off(to_pop);
        *window = rest;
        let ghost w2 = window@;
        proof {
            assert(w2 == w.skip(to_pop as int));
        }
        let mut i: usize = 0;
        while i < n
            invariant
                n == self.trackers@.len(),
                w2 == window@,
                w2 == w.skip(to_pop as int),
                arrivals_ordered(w),
                0 < to_pop < w.len(),
                0 <= i <= n,
                self.wf(),
                forall|k: int| 0 <= k < i ==> tracks(#[trigger] self.trackers@[k], w2),
                forall|k: int| i <= k < n ==> tracks(#[trigger] self.trackers@[k], w) && self.trackers@[k].first >= to_pop,
                self.step_widths@ == old(self).step_widths@,
            decreases n - i,
        {
            let mut t = self.trackers[i];
            proof {
                assert(w.subrange(t.first as int, w.len() as int) == w2.subrange(t.first - to_pop, w2.len() as int));
                assert(w2[t.first - to_pop] == w[t.first as int]);
                assert(w2.last() == w.last());
                if t.first > to_pop {
                    assert(w2[t.first - to_pop - 1] == w[t.first - 1]);
                }
            }
            t.first -= to_pop;
            self.trackers.set(i, t);
            i += 1;
        }
        proof {
            assert forall|a: int, b: int| 0 <= a <= b < w2.len() implies (#[trigger] w2[a]).arrival <= (#[trigger] w2[b]).arrival by {
                assert(w2[a] == w[a + to_pop]);
                assert(w2[b] == w[b + to_pop]);
            }
        }
    }

    /// The extractor that takes over from `e` on the demands of `window`:
    /// a tracker per width, up to the first beyond the span of the window,
    /// each covering the longest suffix of the window shorter than its
    /// delta, and raised to the work of the step of `e` that the sweep
    /// gives it. The count of widths used starts over from 0.
    pub fn from_exact_rbf_extractor(e: &DynamicRbfExtractor, step_widths: Vec<u64>, window: &[Demand]) -> (r: Self)
        requires
            e.wf(),
            step_widths@.len() > 0,
            forall|i: int| 0 <= i < step_widths@.len() ==> #[trigger] step_widths@[i] >= 1,
            1 + width_sum(step_widths@, step_widths@.len() as int) <= u64::MAX,
            window@.len() > 0 ==> 1 + width_sum(step_widths@, tracker_count(step_widths@, span(window@, 0), 1))
                + width_sum(step_widths@, step_widths@.len() as int) <= u64::MAX,
            arrivals_ordered(window@),
            work_sum(window@) <= u64::MAX,
        ensures
            r.wf(),
            r.spec_widths() == step_widths@,
            r.spec_next_width() == 0,
            r.spec_trim_count() == 0,
            r.spec_trackers().len() == if window@.len() == 0 {
                0
            } else {
                tracker_count(step_widths@, span(window@, 0), 1)
            },
            forall|j: int|
                0 <= j < r.spec_trackers().len() ==> {
                    let t = #[trigger] r.spec_trackers()[j];
                    let k = sweep_at(e.items(), step_widths@, j);
                    &&& t.delta == 1 + width_sum(step_widths@, j + 1)
                    &&& tracks(t, window@)
                    &&& t.max_demand == if k < e.items().len() && e.items()[k].1 > t.curr_demand {
                        e.items()[k].1
                    } else {
                        t.curr_demand
                    }
                },
    {
        let ghost ws = step_widths@;
        let ghost w = window@;
        let mut ret = Self::new(step_widths);
        proof {
            lemma_width_sum_mono(ws, 0, ws.len() as int);
        }
        let n = window.len();
        if n == 0 {
            return ret;
        }
        let last_demand = window[n - 1];
        let delta_max = last_demand.arrival - window[0].arrival + 1;
        let nw = ret.step_widths.len();
        let mut delta: u64 = 1;
        let mut m: usize = 0;
        while m < nw
            invariant_except_break
                delta == 1 + width_sum(ws, m as int),
                ret.trackers@.len() == m,
                forall|q: int| 1 <= q <= m ==> 1 + #[trigger] width_sum(ws, q) <= delta_max,
            invariant
                ws == ret.step_widths@,
                nw == ws.len(),
                nw > 0,
                w == window@,
                0 <= m <= nw,
                delta_max == span(w, 0),
                forall|i: int| 0 <= i < ws.len() ==> #[trigger] ws[i] >= 1,
                1 + width_sum(ws, ws.len() as int) <= u64::MAX,
                forall|j: int| 0 <= j < ret.trackers@.len() ==> #[trigger] ret.trackers@[j] == (StepTracker { delta: (1 + width_sum(ws, j + 1)) as u64, first: 0, curr_demand: 0, max_demand: 0 }),
                ret.next_step_width == 0,
                ret.trim_count == 0,
            ensures
                ws == ret.step_widths@,
                1 <= ret.trackers@.len() <= nw,
                forall|q: int| 1 <= q < ret.trackers@.len() ==> 1 + #[trigger] width_sum(ws, q) <= delta_max,
                ret.trackers@.len() == nw || 1 + width_sum(ws, ret.trackers@.len() as int) > delta_max,
                forall|j: int| 0 <= j < ret.trackers@.len() ==> #[trigger] ret.trackers@[j] == (StepTracker { delta: (1 + width_sum(ws, j + 1)) as u64, first: 0, curr_demand: 0, max_demand: 0 }),
                ret.next_step_width == 0,
                ret.trim_count == 0,
            decreases nw - m,
        {
            proof {
                lemma_width_sum_mono(ws, m + 1, ws.len() as int);
                assert(width_sum(ws, m + 1) == width_sum(ws, m as int) + ws[m as int]);
            }
            delta = delta + ret.step_widths[m];
            if delta > delta_max {
                ret.trackers.push(StepTracker::new(delta));
                break;
            }
            ret.trackers.push(StepTracker::new(delta));
            m += 1;
        }
        let k = ret.trackers.len();
        proof {
            lemma_tracker_count_at(ws, delta_max as int, 1, k as int);
            assert forall|j: int| 0 <= j < k implies (#[trigger] ret.trackers@[j]).delta == 1 + width_sum(ws, j + 1) by {
                lemma_width_sum_mono(ws, j + 1, ws.len() as int);
                lemma_width_sum_mono(ws, 0, j + 1);
            }
        }
        let mut work: u64 = 0;
        let mut q: usize = 0;
        while q < n
            invariant
                w == window@,
                n == w.len(),
                0 <= q <= n,
                work_sum(w) <= u64::MAX,
                work == work_between(w, 0, q as int),
            decreases n - q,
        {
            proof {
                lemma_work_between_push(w, 0, q as int);
                lemma_work_between_bound(w, 0, q + 1);
            }
            work = work + window[q].work;
            q += 1;
        }
        let mut i: usize = 0;
        let mut t: usize = k;
        while t > 0
            invariant
                w == window@,
                n == w.len(),
                n > 0,
                arrivals_ordered(w),
                work_sum(w) <= u64::MAX,
                last_demand == w.last(),
                ws == ret.step_widths@,
                k == ret.trackers@.len(),
                k <= ws.len(),
                0 <= t <= k,
                0 <= i < n,
                work == work_between(w, i as int, n as int),
                forall|j: int| 0 <= j < k ==> (#[trigger] ret.trackers@[j]).delta == 1 + width_sum(ws, j + 1),
                forall|j: int| 0 <= j < t ==> #[trigger] ret.trackers@[j] == (StepTracker { delta: (1 + width_sum(ws, j + 1)) as u64, first: 0, curr_demand: 0, max_demand: 0 }),
                forall|j: int| t <= j < k ==> {
                    let tr = #[trigger] ret.trackers@[j];
                    &&& tracks(tr, w)
                    &&& tr.max_demand == tr.curr_demand
                },
                t < k ==> i == ret.trackers@[t as int].first,
                i > 0 ==> span(w, i - 1) >= (if t < k { ret.trackers@[t as int].delta as int } else { 1 + width_sum(ws, k as int) }),
                forall|x: int| 0 <= x < ws.len() ==> #[trigger] ws[x] >= 1,
                ret.next_step_width == 0,
                ret.trim_count == 0,
            decreases t,
        {
            t -= 1;
            let mut tr = ret.trackers[t];
            proof {
                lemma_width_sum_mono(ws, t + 1, k as int);
                lemma_width_sum_mono(ws, 0, t + 1);
            }
            while i < n
                invariant
                    w == window@,
                    n == w.len(),
                    arrivals_ordered(w),
                    work_sum(w) <= u64::MAX,
                    last_demand == w.last(),
                    0 <= i < n,
                    tr.delta >= 2,
                    work == work_between(w, i as int, n as int),
                    i > 0 ==> span(w, i - 1) >= tr.delta,
                ensures
                    0 <= i < n,
                    work == work_between(w, i as int, n as int),
                    span(w, i as int) < tr.delta,
                    i > 0 ==> span(w, i - 1) >= tr.delta,
                decreases n - i,
            {
                let delta = last_demand.arrival - window[i].arrival + 1;
                if delta >= tr.delta {
                    proof {
                        assert(i < n - 1) by {
                            if i == n - 1 {
                                assert(span(w, i as int) == 1);
                            }
                        }
                        lemma_work_between_first(w, i as int, n as int);
                        lemma_work_between_nonneg(w, i + 1, n as int);
                    }
                    work = work.saturating_sub(window[i].work);
                    i += 1;
                } else {
                    break;
                }
            }
            tr.curr_demand = work;
            tr.max_demand = work;
            tr.first = i;
            ret.trackers.set(t, tr);
        }
        let ghost sv = e.items();
        proof {
            lemma_sweep_at(sv, ws, 0);
        }
        let steps = e.steps();
        let mut j: usize = 0;
        let mut si: usize = 0;
        while si < steps.len()
            invariant
                steps@ == as_steps(sv),
                w == window@,
                ws == ret.step_widths@,
                k == ret.trackers@.len(),
                k <= ws.len(),
                0 <= si <= sv.len(),
                0 <= j <= k,
                forall|x: int| 0 <= x < ws.len() ==> #[trigger] ws[x] >= 1,
                forall|x: int| 0 <= x < k ==> (#[trigger] ret.trackers@[x]).delta == 1 + width_sum(ws, x + 1),
                forall|x: int| 0 <= x < k ==> tracks(#[trigger] ret.trackers@[x], w),
                forall|x: int| 0 <= x < j ==> sweep_at(sv, ws, x) < si,
                j < k ==> sweep_at(sv, ws, j as int) >= si,
                forall|x: int|
                    0 <= x < k ==> {
                        let tr = #[trigger] ret.trackers@[x];
                        let p = sweep_at(sv, ws, x);
                        tr.max_demand == if x < j && sv[p].1 > tr.curr_demand {
                            sv[p].1
                        } else {
                            tr.curr_demand
                        }
                    },
                ret.next_step_width == 0,
                ret.trim_count == 0,
            decreases sv.len() - si,
        {
            let step = steps[si];
            while j < k
                invariant
                    steps@ == as_steps(sv),
                    step == as_steps(sv)[si as int],
                    w == window@,
                    ws == ret.step_widths@,
                    k == ret.trackers@.len(),
                    k <= ws.len(),
                    0 <= si < sv.len(),
                    0 <= j <= k,
                    forall|x: int| 0 <= x < ws.len() ==> #[trigger] ws[x] >= 1,
                    forall|x: int| 0 <= x < k ==> (#[trigger] ret.trackers@[x]).delta == 1 + width_sum(ws, x + 1),
                    forall|x: int| 0 <= x < k ==> tracks(#[trigger] ret.trackers@[x], w),
                    forall|x: int| 0 <= x < j ==> sweep_at(sv, ws, x) <= si,
                    j < k ==> sweep_at(sv, ws, j as int) >= si,
                    forall|x: int|
                        0 <= x < k ==> {
                            let tr = #[trigger] ret.trackers@[x];
                            let p = sweep_at(sv, ws, x);
                            tr.max_demand == if x < j && sv[p].1 > tr.curr_demand {
                                sv[p].1
                            } else {
                                tr.curr_demand
                            }
                        },
                    ret.next_step_width == 0,
                    ret.trim_count == 0,
                ensures
                    0 <= j <= k,
                    forall|x: int| 0 <= x < j ==> sweep_at(sv, ws, x) <= si,
                    j < k ==> sweep_at(sv, ws, j as int) > si,
                    forall|x: int|
                        0 <= x < k ==> {
                            let tr = #[trigger] ret.trackers@[x];
                            let p = sweep_at(sv, ws, x);
                            tr.max_demand == if x < j && sv[p].1 > tr.curr_demand {
                                sv[p].1
                            } else {
                                tr.curr_demand
                            }
                        },
                    forall|x: int| 0 <= x < k ==> (#[trigger] ret.trackers@[x]).delta == 1 + width_sum(ws, x + 1),
                    forall|x: int| 0 <= x < k ==> tracks(#[trigger] ret.trackers@[x], w),
                    k == ret.trackers@.len(),
                    ws == ret.step_widths@,
                    ret.next_step_width == 0,
                    ret.trim_count == 0,
                decreases k - j,
            {
                proof {
                    lemma_sweep_at(sv, ws, j as int);
                    assert(width_sum(ws, j + 1) == width_sum(ws, j as int) + ws[j as int]);
                    assert(ret.trackers@[j as int].delta == 1 + width_sum(ws, j + 1));
                    lemma_width_sum_mono(ws, 0, j as int);
                }
                let lo = ret.trackers[j].delta - ret.step_widths[j];
                if step.delta <= lo {
                    proof {
                        if sweep_at(sv, ws, j as int) > si {
                            let start = if j == 0 { 0 } else { sweep_at(sv, ws, j - 1) };
                            assert(start <= si);
                            assert(sv[si as int].0 > 1 + width_sum(ws, j as int));
                        }
                        assert(sweep_at(sv, ws, j as int) == si);
                        if j + 1 < k {
                            lemma_sweep_at(sv, ws, j + 1);
                        }
                    }
                    let mut tr = ret.trackers[j];
                    if step.work > tr.max_demand {
                        tr.max_demand = step.work;
                    }
                    ret.trackers.set(j, tr);
                    j += 1;
                } else {
                    break;
                }
            }
            si += 1;
        }
        proof {
            assert forall|x: int| j <= x < k implies sweep_at(sv, ws, x) >= sv.len() by {
                lemma_sweep_mono(sv, ws, j as int, x);
            }
            let ts = ret.trackers@;
            assert forall|a: int, b: int| 0 <= a < b < ts.len() implies (#[trigger] ts[a]).delta < (
            #[trigger] ts[b]).delta by {
                lemma_width_sum_mono(ws, a + 1, b + 1);
            }
            lemma_width_sum_mono(ws, k as int, ws.len() as int);
            assert(ts.last().delta == 1 + width_sum(ws, k as int));
        }
        ret
    }
}

/// Compresses steps closer than a minimal separation.
pub struct MinSepCompressor {
    min_sep: u64,
}

impl MinSepCompressor {
    pub closed spec fn spec_min_sep(&self) -> u64 {
        self.min_sep
    }

    pub fn new(min_sep: u64) -> (r: Self)
        ensures
            r.spec_min_sep() == min_sep,
    {
        Self { min_sep }
    }

    fn is_deleted(step: &Step) -> (r: bool)
        ensures
            r == (step.delta == 0),
    {
        step.delta == 0
    }

    /// Where to split a non-empty slice of length `len`: at an even
    /// position past its middle, when it has more than two steps.
    fn find_mid(len: usize) -> (r: usize)
        requires
            len >= 2,
        ensures
            0 < r < len,
            r == (if len <= 2 {
                len / 2 + 0
            } else if (len / 2) % 2 != 0 {
                len / 2 + 1
            } else {
                len / 2 + 0
            }),
    {
        if len <= 2 {
            return len / 2;
        }
        let mut mid = len / 2;
        if (mid % 2) != 0 {
            mid += 1;
        }
        mid
    }

    /// Merges two compressed neighbouring ranges `[lo, mid)` and `[mid, hi)`
    /// whose last `deleted_left` and `deleted_right` steps are deleted.
    /// Returns the number of deleted steps of `[lo, hi)`.
    #[verifier::rlimit(60)]
    fn merge(
        &self,
        steps: &mut Vec<Step>,
        lo: usize,
        mid: usize,
        hi: usize,
        deleted_left: usize,
        deleted_right: usize,
    ) -> (r: usize)
        requires
            lo < mid < hi <= old(steps)@.len(),
            compacted(old(steps)@, lo as int, mid as int, deleted_left as int),
            compacted(old(steps)@, mid as int, hi as int, deleted_right as int),
            deleted_left < mid - lo,
            deleted_right < hi - mid,
            forall|a: int, b: int| lo <= a < mid - deleted_left && mid <= b < hi - deleted_right
                ==> (#[trigger] old(steps)@[a]).delta < (#[trigger] old(steps)@[b]).delta,
            separated(old(steps)@, lo as int, mid - deleted_left, self.spec_min_sep()),
            separated(old(steps)@, mid as int, hi - deleted_right, self.spec_min_sep()),
        ensures
            final(steps)@.len() == old(steps)@.len(),
            r < hi - lo,
            compacted(final(steps)@, lo as int, hi as int, r as int),
            separated(final(steps)@, lo as int, hi - r, self.spec_min_sep()),
            final(steps)@[lo as int].delta == old(steps)@[lo as int].delta,
            forall|k: int| 0 <= k < final(steps)@.len() && !(lo <= k < hi) ==> #[trigger] final(steps)@[k] == old(steps)@[k],
            forall|k: int| lo <= k < hi - r ==> has_delta(old(steps)@, lo as int, hi as int, (#[trigger] final(steps)@[k]).delta),
            final(steps)@.subrange(lo as int, hi - r) == absorb(
                old(steps)@.subrange(lo as int, mid - deleted_left),
                old(steps)@.subrange(mid as int, hi - deleted_right),
                self.spec_min_sep(),
            ),
    {
        let ghost s0 = steps@;
        let ghost left = s0.subrange(lo as int, mid - deleted_left);
        let ghost right = s0.subrange(mid as int, hi - deleted_right);
        proof {
            assert(right.take(0) =~= Seq::<Step>::empty());
            assert(steps@.subrange(lo as int, mid - deleted_left) == left);
        }
        let mut deleted = deleted_left + deleted_right;
        let mut rh = mid;
        let mut lh = mid - deleted_left - 1;
        let ghost gap0 = deleted_left;
        while rh < hi
            invariant
                s0.len() == steps@.len(),
                hi <= s0.len(),
                lo <= lh < rh <= hi,
                lo < mid <= rh,
                rh <= hi - deleted_right || (rh == hi - deleted_right),
                deleted == (rh - lh - 1) + deleted_right,
                deleted < hi - lo,
                compacted(s0, mid as int, hi as int, deleted_right as int),
                // [lo, lh] live and increasing
                forall|k: int| lo <= k <= lh ==> (#[trigger] steps@[k]).delta > 0,
                forall|a: int, b: int| lo <= a < b <= lh ==> (#[trigger] steps@[a]).delta < (#[trigger] steps@[b]).delta,
                separated(steps@, lo as int, lh + 1, self.min_sep),
                separated(s0, mid as int, hi - deleted_right, self.min_sep),
                rh == lh + 1 ==> (rh == mid || lh >= mid),
                mid < hi,
                deleted_right < hi - mid,
                rh == lh + 1 && lh >= mid && rh < hi - deleted_right ==> s0[rh as int].delta - steps@[lh as int].delta
                    >= self.min_sep,
                steps@.subrange(lo as int, lh + 1) == absorb(left, right.take(rh - mid), self.min_sep),
                left == s0.subrange(lo as int, mid - deleted_left),
                right == s0.subrange(mid as int, hi - deleted_right),
                // gap deleted
                forall|k: int| lh < k < rh ==> (#[trigger] steps@[k]).delta == 0,
                // the rest of the right range is untouched
                forall|k: int| rh <= k < hi ==> #[trigger] steps@[k] == s0[k],
                rh < hi - deleted_right ==> steps@[lh as int].delta < s0[rh as int].delta,
                forall|k: int| 0 <= k < steps@.len() && !(lo <= k < hi) ==> #[trigger] steps@[k] == s0[k],
                steps@[lo as int].delta == s0[lo as int].delta,
                forall|k: int| lo <= k <= lh ==> has_delta(s0, lo as int, hi as int, (#[trigger] steps@[k]).delta),
            ensures
                lo <= lh < rh <= hi,
                deleted == (rh - lh - 1) + deleted_right,
                deleted < hi - lo,
                rh == lh + 1 || rh >= hi - deleted_right,
                forall|k: int| lo <= k <= lh ==> (#[trigger] steps@[k]).delta > 0,
                forall|a: int, b: int| lo <= a < b <= lh ==> (#[trigger] steps@[a]).delta < (#[trigger] steps@[b]).delta,
                separated(steps@, lo as int, lh + 1, self.min_sep),
                separated(s0, mid as int, hi - deleted_right, self.min_sep),
                rh == lh + 1 ==> lh >= mid,
                rh == lh + 1 && lh >= mid && rh < hi - deleted_right ==> s0[rh as int].delta - steps@[lh as int].delta
                    >= self.min_sep,
                forall|k: int| lh < k < rh ==> (#[trigger] steps@[k]).delta == 0,
                forall|k: int| rh <= k < hi ==> #[trigger] steps@[k] == s0[k],
                rh < hi - deleted_right ==> steps@[lh as int].delta < s0[rh as int].delta,
                forall|k: int| 0 <= k < steps@.len() && !(lo <= k < hi) ==> #[trigger] steps@[k] == s0[k],
                steps@[lo as int].delta == s0[lo as int].delta,
                forall|k: int| lo <= k <= lh ==> has_delta(s0, lo as int, hi as int, (#[trigger] steps@[k]).delta),
                steps@.subrange(lo as int, lh + 1) == absorb(left, right.take(rh - mid), self.min_sep),
                rh <= hi - deleted_right,
                left == s0.subrange(lo as int, mid - deleted_left),
                right == s0.subrange(mid as int, hi - deleted_right),
            decreases hi - rh,
        {
            let r_step = steps[rh];
            let l_step = steps[lh];
            if Self::is_deleted(&r_step) {
                proof {
                    assert(rh >= hi - deleted_right);
                }
                break;
            }
            proof {
                assert(r_step == s0[rh as int]);
                assert(rh < hi - deleted_right);
                assert(right[rh - mid] == s0[rh as int]);
                lemma_absorb_take(left, right, rh - mid, self.min_sep);
                assert(steps@.subrange(lo as int, lh + 1).last() == l_step);
            }
            let ghost acc = steps@.subrange(lo as int, lh + 1);
            if r_step.delta - l_step.delta < self.min_sep {
                steps.set(lh, Step { delta: l_step.delta, work: r_step.work });
                proof {
                    assert(steps@.subrange(lo as int, lh + 1) =~= acc.update(acc.len() - 1, Step {
                        delta: acc.last().delta,
                        work: r_step.work,
                    }));
                }
                steps.set(rh, Step { delta: 0, work: 0 });
                rh += 1;
                deleted += 1;
                proof {
                    if rh < hi - deleted_right {
                        assert(s0[rh - 1].delta < s0[rh as int].delta);
                    }
                }
            } else {
                let moved = steps[lh + 1];
                steps.set(lh + 1, r_step);
                steps.set(rh, moved);
                proof {
                    if lh + 1 < rh {
                        assert(steps@.subrange(lo as int, lh + 2) =~= acc.push(r_step));
                    } else {
                        assert(steps@.subrange(lo as int, lh + 2) =~= acc.push(r_step));
                    }
                }
                proof {
                    if lh + 1 < rh {
                        assert(moved.delta == 0);
                    }
                    assert(has_delta(s0, lo as int, hi as int, r_step.delta)) by {
                        assert(r_step.delta == s0[rh as int].delta);
                    }
                }
                lh += 1;
                rh += 1;
                proof {
                    if rh < hi - deleted_right {
                        assert(s0[rh - 1].delta < s0[rh as int].delta);
                    }
                }
            }
            if rh == lh + 1 {
                break;
            }
        }
        proof {
            assert forall|a: int| lo <= a && a + 1 < hi - deleted implies (#[trigger] steps@[a + 1]).delta
                - steps@[a].delta >= self.min_sep by {
                if a > lh {
                    assert(steps@[a] == s0[a] && steps@[a + 1] == s0[a + 1]);
                }
            }
            let k = rh - mid;
            let acc = steps@.subrange(lo as int, lh + 1);
            if rh == hi - deleted_right {
                assert(right.take(k) =~= right);
            } else {
                let rest = right.skip(k);
                assert(steps@.subrange(lo as int, hi - deleted) =~= acc + rest) by {
                    assert forall|q: int| 0 <= q < rest.len() implies rest[q] == steps@[rh + q] by {
                        assert(rest[q] == s0[rh + q]);
                    }
                }
                assert(right =~= right.take(k) + rest);
                lemma_absorb_concat(left, right.take(k), rest, self.min_sep);
                assert forall|a: int| 0 <= a && a + 1 < rest.len() implies (#[trigger] rest[a + 1]).delta
                    - rest[a].delta >= self.min_sep by {
                    assert(rest[a] == s0[rh + a]);
                    assert(rest[a + 1] == s0[(rh + a) + 1]);
                }
                assert(rest[0] == s0[rh as int]);
                assert(acc.last() == steps@[lh as int]);
                lemma_absorb_separated(acc, rest, self.min_sep);
            }
        }
        deleted
    }

    /// Compresses `[lo, hi)`; returns the number of steps deleted, which end
    /// up last in the range.
    #[verifier::rlimit(80)]
    fn do_compress(&self, steps: &mut Vec<Step>, lo: usize, hi: usize) -> (r: usize)
        requires
            lo <= hi <= old(steps)@.len(),
            forall|k: int| lo <= k < hi ==> (#[trigger] old(steps)@[k]).delta > 0,
            forall|a: int, b: int| lo <= a < b < hi ==> (#[trigger] old(steps)@[a]).delta < (#[trigger] old(steps)@[b]).delta,
        ensures
            final(steps)@.len() == old(steps)@.len(),
            lo < hi ==> r < hi - lo,
            lo == hi ==> r == 0,
            compacted(final(steps)@, lo as int, hi as int, r as int),
            separated(final(steps)@, lo as int, hi - r, self.spec_min_sep()),
            lo < hi ==> final(steps)@[lo as int].delta == old(steps)@[lo as int].delta,
            forall|k: int| 0 <= k < final(steps)@.len() && !(lo <= k < hi) ==> #[trigger] final(steps)@[k] == old(steps)@[k],
            forall|k: int| lo <= k < hi - r ==> has_delta(old(steps)@, lo as int, hi as int, (#[trigger] final(steps)@[k]).delta),
            final(steps)@.subrange(lo as int, hi - r) == min_sep_compressed(
                old(steps)@.subrange(lo as int, hi as int),
                self.spec_min_sep(),
            ),
        decreases hi - lo,
    {
        if hi - lo < 2 {
            proof {
                assert forall|k: int| lo <= k < hi implies has_delta(old(steps)@, lo as int, hi as int, (#[trigger] steps@[k]).delta) by {
                    assert(steps@[k] == old(steps)@[k]);
                    assert(old(steps)@[k].delta == steps@[k].delta);
                }
            }
            return 0;
        }
        let mid = lo + Self::find_mid(hi - lo);
        let ghost s0 = steps@;
        let deleted_left = self.do_compress(steps, lo, mid);
        let ghost s1 = steps@;
        let deleted_right = self.do_compress(steps, mid, hi);
        let ghost s2 = steps@;
        proof {
            assert forall|a: int, b: int| lo <= a < mid - deleted_left && mid <= b < hi - deleted_right
                implies (#[trigger] s2[a]).delta < (#[trigger] s2[b]).delta by {
                assert(s2[a] == s1[a]);
                let ja = choose|j: int| lo <= j < mid && #[trigger] s0[j].delta == s1[a].delta;
                let jb = choose|j: int| mid <= j < hi && #[trigger] s1[j].delta == s2[b].delta;
                assert(s1[jb] == s0[jb]);
            }
            assert(compacted(s2, lo as int, mid as int, deleted_left as int)) by {
                assert forall|k: int| lo <= k < mid implies #[trigger] s2[k] == s1[k] by {}
            }
        }
        let r = self.merge(steps, lo, mid, hi, deleted_left, deleted_right);
        assert(steps@.subrange(lo as int, hi - r) == min_sep_compressed(s0.subrange(lo as int, hi as int), self.min_sep))
            by {
            let whole = s0.subrange(lo as int, hi as int);
            assert(whole.take(mid - lo) =~= s0.subrange(lo as int, mid as int));
            assert(whole.skip(mid - lo) =~= s0.subrange(mid as int, hi as int));
            assert(s1.subrange(mid as int, hi as int) =~= s0.subrange(mid as int, hi as int));
            assert(s2.subrange(lo as int, mid - deleted_left) =~= s1.subrange(lo as int, mid - deleted_left));
        }
        proof {
            assert forall|k: int| lo <= k < hi - r implies has_delta(s0, lo as int, hi as int, (#[trigger] steps@[k]).delta) by {
                let j2 = choose|j: int| lo <= j < hi && #[trigger] s2[j].delta == steps@[k].delta && s2[j].delta != 0;
                if j2 < mid {
                    assert(s2[j2] == s1[j2]);
                    assert(j2 < mid - deleted_left);
                    assert(has_delta(s0, lo as int, mid as int, s1[j2].delta));
                    let j0 = choose|j: int| lo <= j < mid && #[trigger] s0[j].delta == s1[j2].delta;
                    assert(s0[j0].delta == steps@[k].delta);
                } else {
                    assert(j2 < hi - deleted_right);
                    assert(has_delta(s1, mid as int, hi as int, s2[j2].delta));
                    let j1 = choose|j: int| mid <= j < hi && #[trigger] s1[j].delta == s2[j2].delta;
                    assert(s1[j1] == s0[j1]);
                    assert(s0[j1].delta == steps@[k].delta);
                }
            }
        }
        r
    }

    /// Merges the steps closer than the minimal separation: the earlier
    /// step of a close pair takes the work of the later one, which is
    /// removed. Each half of the steps is compressed first, then the steps
    /// kept on the right are taken in order after those kept on the left.
    pub fn compress(&self, steps: &mut Vec<Step>)
        requires
            forall|k: int| 0 <= k < old(steps)@.len() ==> (#[trigger] old(steps)@[k]).delta > 0,
            forall|a: int, b: int| 0 <= a < b < old(steps)@.len() ==> (#[trigger] old(steps)@[a]).delta < (#[trigger] old(steps)@[b]).delta,
        ensures
            final(steps)@.len() <= old(steps)@.len(),
            old(steps)@.len() > 0 ==> final(steps)@.len() > 0 && final(steps)@[0].delta == old(steps)@[0].delta,
            forall|k: int| 0 <= k < final(steps)@.len() ==> (#[trigger] final(steps)@[k]).delta > 0,
            forall|a: int, b: int| 0 <= a < b < final(steps)@.len() ==> (#[trigger] final(steps)@[a]).delta < (#[trigger] final(steps)@[b]).delta,
            forall|k: int| 0 <= k < final(steps)@.len() ==> has_delta(old(steps)@, 0, old(steps)@.len() as int, (#[trigger] final(steps)@[k]).delta),
            separated(final(steps)@, 0, final(steps)@.len() as int, self.spec_min_sep()),
            final(steps)@ == min_sep_compressed(old(steps)@, self.spec_min_sep()),
    {
        let n = steps.len();
        let deleted = self.do_compress(steps, 0, n);
        let new_len = n - deleted;
        let ghost s1 = steps@;
        steps.truncate(new_len);
        proof {
            assert(old(steps)@.subrange(0, n as int) =~= old(steps)@);
            assert(steps@ =~= s1.subrange(0, new_len as int));
        }
    }
}

/// Where a range of `n` steps is split: at an even position past its
/// middle, when it has more than two steps.
pub open spec fn split_at(n: int) -> int {
    if n <= 2 {
        n / 2
    } else if (n / 2) % 2 != 0 {
        n / 2 + 1
    } else {
        n / 2
    }
}

/// Takes `x` after the kept steps `acc`: when it is closer than `sep` to the
/// last kept step, that step takes its work and `x` goes; otherwise `x` is
/// kept.
pub open spec fn absorb_step(acc: Seq<Step>, x: Step, sep: u64) -> Seq<Step> {
    if acc.len() > 0 && x.delta - acc.last().delta < sep {
        acc.update(acc.len() - 1, Step { delta: acc.last().delta, work: x.work })
    } else {
        acc.push(x)
    }
}

/// Takes the steps `r`, in order, after the kept steps `acc`.
pub open spec fn absorb(acc: Seq<Step>, r: Seq<Step>, sep: u64) -> Seq<Step>
    decreases r.len(),
{
    if r.len() == 0 {
        acc
    } else {
        absorb_step(absorb(acc, r.drop_last(), sep), r.last(), sep)
    }
}

/// The steps compressed to a minimal separation `sep`: each half (split as
/// `split_at` says) is compressed, then the steps kept on the right are
/// taken in order after those kept on the left.
pub open spec fn min_sep_compressed(s: Seq<Step>, sep: u64) -> Seq<Step>
    decreases s.len(),
{
    if s.len() < 2 {
        s
    } else {
        let m = split_at(s.len() as int);
        absorb(min_sep_compressed(s.take(m), sep), min_sep_compressed(s.skip(m), sep), sep)
    }
}

proof fn lemma_absorb_concat(acc: Seq<Step>, a: Seq<Step>, b: Seq<Step>, sep: u64)
    ensures
        absorb(acc, a + b, sep) == absorb(absorb(acc, a, sep), b, sep),
    decreases b.len(),
{
    if b.len() == 0 {
        assert(a + b =~= a);
    } else {
        assert((a + b).drop_last() =~= a + b.drop_last());
        assert((a + b).last() == b.last());
        lemma_absorb_concat(acc, a, b.drop_last(), sep);
    }
}

proof fn lemma_absorb_take(acc: Seq<Step>, r: Seq<Step>, k: int, sep: u64)
    requires
        0 <= k < r.len(),
    ensures
        absorb(acc, r.take(k + 1), sep) == absorb_step(absorb(acc, r.take(k), sep), r[k], sep),
{
    assert(r.take(k + 1).drop_last() =~= r.take(k));
    assert(r.take(k + 1).last() == r[k]);
}

/// Steps already apart, and apart from the last kept step, are all kept.
proof fn lemma_absorb_separated(acc: Seq<Step>, r: Seq<Step>, sep: u64)
    requires
        acc.len() > 0,
        r.len() > 0 ==> r[0].delta - acc.last().delta >= sep,
        separated(r, 0, r.len() as int, sep),
    ensures
        absorb(acc, r, sep) == acc + r,
    decreases r.len(),
{
    if r.len() > 0 {
        let t = r.drop_last();
        assert forall|a: int| 0 <= a && a + 1 < t.len() implies (#[trigger] t[a + 1]).delta - t[a].delta >= sep by {
            assert(t[a + 1] == r[a + 1] && t[a] == r[a]);
        }
        lemma_absorb_separated(acc, t, sep);
        let u = acc + t;
        if r.len() > 1 {
            assert(u.last() == r[r.len() - 2]);
            assert(r[r.len() - 1] == r[(r.len() - 2) + 1]);
        }
        assert(u.push(r.last()) =~= acc + r);
    }
}

/// Neighbouring steps of `s[lo..hi]` are at least `sep` apart.
pub open spec fn separated(s: Seq<Step>, lo: int, hi: int, sep: u64) -> bool {
    forall|a: int| lo <= a && a + 1 < hi ==> (#[trigger] s[a + 1]).delta - s[a].delta >= sep
}

/// Some live step of `s[lo..hi]` has delta `d`.
pub open spec fn has_delta(s: Seq<Step>, lo: int, hi: int, d: u64) -> bool {
    exists|j: int| lo <= j < hi && #[trigger] s[j].delta == d && d != 0
}

/// `[lo, hi)` holds live steps of increasing delta followed by `d` deleted
/// steps.
pub open spec fn compacted(s: Seq<Step>, lo: int, hi: int, d: int) -> bool {
    &&& 0 <= d <= hi - lo
    &&& forall|k: int| lo <= k < hi - d ==> (#[trigger] s[k]).delta > 0
    &&& forall|k: int| hi - d <= k < hi ==> (#[trigger] s[k]).delta == 0
    &&& forall|a: int, b: int| lo <= a < b < hi - d ==> (#[trigger] s[a]).delta < (#[trigger] s[b]).delta
}


/// The time granularity of the first merging pass of a compression.
pub const COMPRESS_TIME_GRANULARITY: u64 = 15_000_000;

/// The work granularity of the first merging pass of a compression.
pub const COMPRESS_WORK_GRANULARITY: u64 = 100_000;

/// The steps once merging passes, with granularities doubling from `tg`
/// and `wg`, have brought them down to at most `max` steps; `None` when a
/// granularity would overflow first.
pub open spec fn compressed(s: Seq<(u64, u64)>, max: nat, tg: u64, wg: u64) -> Option<Seq<(u64, u64)>>
    decreases u64::MAX - tg,
{
    if s.len() <= max {
        Some(s)
    } else if tg == 0 || tg > u64::MAX / 2 || wg > u64::MAX / 2 {
        None
    } else {
        compressed(merge_pass_from(s, tg, 0).0, max, (tg * 2) as u64, (wg * 2) as u64)
    }
}

/// The position of the first demand of `w`, from `i` on, that arrived less
/// than `horizon - 1` before `last`.
pub open spec fn first_recent(w: Seq<Demand>, horizon: u64, last: u64, i: int) -> int
    decreases w.len() - i,
{
    if i < 0 || i >= w.len() || last - w[i].arrival + 1 < horizon {
        i
    } else {
        first_recent(w, horizon, last, i + 1)
    }
}

/// Pairs as RBF steps.
pub open spec fn as_steps(s: Seq<(u64, u64)>) -> Seq<Step> {
    Seq::new(s.len(), |i: int| Step { delta: s[i].0, work: s[i].1 })
}

proof fn lemma_merge_cheapest_sorted(s: Seq<(u64, u64)>)
    requires
        deltas_sorted(s),
    ensures
        deltas_sorted(spec_merge_cheapest(s)),
{
    let m = cheapest_from(s, 1, -1, u64::MAX);
    if 1 <= m < s.len() {
        let t = s.update(m - 1, (s[m - 1].0, s[m].1)).remove(m);
        assert forall|a: int, b: int| 0 <= a < b < t.len() implies (#[trigger] t[a]).0 <= (#[trigger] t[b]).0 by {
            let a0 = if a < m { a } else { a + 1 };
            let b0 = if b < m { b } else { b + 1 };
            assert(t[a].0 == s[a0].0);
            assert(t[b].0 == s[b0].0);
        }
    }
}

proof fn lemma_trim_beyond_sorted(s: Seq<(u64, u64)>, h: u64)
    requires
        deltas_sorted(s),
    ensures
        deltas_sorted(spec_trim_beyond(s, h)),
    decreases s.len(),
{
    if s.len() > 0 && s.last().0 > h {
        let t = s.drop_last();
        assert forall|i: int, j: int| 0 <= i < j < t.len() implies (#[trigger] t[i]).0 <= (#[trigger] t[j]).0 by {
            assert(t[i] == s[i] && t[j] == s[j]);
        }
        lemma_trim_beyond_sorted(t, h);
    }
}

/// RBF extractor with steps of any width: a step for every demand, as long
/// as the steps stay within the horizon and their number within a maximum;
/// beyond it, neighbouring steps are merged.
pub struct DynamicRbfExtractor {
    horizon: Option<u64>,
    max_steps: Option<usize>,
    steps: RBFSteps,
}

impl DynamicRbfExtractor {
    pub closed spec fn spec_horizon(&self) -> Option<u64> {
        self.horizon
    }

    pub closed spec fn spec_max_steps(&self) -> Option<usize> {
        self.max_steps
    }

    /// The steps, as `(delta, work)` pairs.
    pub closed spec fn items(&self) -> Seq<(u64, u64)> {
        self.steps.items()
    }

    /// The slots the step list has allocated.
    pub closed spec fn slots(&self) -> nat {
        self.steps.slots()
    }

    /// The step list is sound, and the deltas never decrease.
    pub closed spec fn wf(&self) -> bool {
        &&& self.steps.wf()
        &&& deltas_sorted(self.steps.items())
    }

    /// The steps once the window `w` is taken into account: its steps are
    /// inserted, those beyond the horizon dropped and the rest compressed;
    /// `None` when the compression cannot end.
    pub open spec fn spec_after_window(&self, w: Seq<Demand>) -> Option<Seq<(u64, u64)>> {
        let s1 = spec_update_steps(self.items(), w);
        let s2 = match self.spec_horizon() {
            Some(h) => spec_trim_beyond(s1, h),
            None => s1,
        };
        match self.spec_max_steps() {
            Some(m) => compressed(s2, m as nat, COMPRESS_TIME_GRANULARITY, COMPRESS_WORK_GRANULARITY),
            None => Some(s2),
        }
    }

    /// What taking the window `w` into account needs: room for its steps,
    /// demands in arrival order whose steps fit in `u64`, and a compression
    /// that ends.
    pub open spec fn spec_can_take(&self, w: Seq<Demand>) -> bool {
        &&& self.slots() + w.len() < u32::MAX
        &&& window_fits(w)
        &&& forall|a: int, b: int| 0 <= a < b < w.len() ==> (#[trigger] w[a]).arrival <= (#[trigger] w[b]).arrival
        &&& self.spec_after_window(w) is Some
    }

    pub fn new(max_steps: usize, horizon: Option<u64>) -> (r: Self)
        ensures
            r.wf(),
            r.spec_horizon() == horizon,
            r.spec_max_steps() == Some(max_steps),
            r.items() == Seq::<(u64, u64)>::empty(),
            r.slots() == 0,
    {
        Self { horizon, max_steps: Some(max_steps), steps: RBFSteps::new() }
    }

    /// Returns true if no demand has been seen so far.
    pub fn is_empty(&self) -> (r: bool)
        ensures
            r == (self.items().len() == 0),
    {
        self.steps.len() == 0
    }

    /// Drops the last steps while their delta is beyond the horizon.
    fn do_trim_steps(&mut self)
        requires
            old(self).wf(),
        ensures
            final(self).wf(),
            final(self).slots() == old(self).slots(),
            final(self).spec_horizon() == old(self).spec_horizon(),
            final(self).spec_max_steps() == old(self).spec_max_steps(),
            final(self).items() == match old(self).spec_horizon() {
                Some(h) => spec_trim_beyond(old(self).items(), h),
                None => old(self).items(),
            },
    {
        if let Some(horizon) = self.horizon {
            proof {
                lemma_trim_beyond_sorted(self.steps.items(), horizon);
            }
            self.steps.trim_beyond(horizon);
        }
    }

    /// Inserts the steps of the demands of `window`, newest first.
    fn do_update(&mut self, window: &[Demand])
        requires
            old(self).wf(),
            old(self).slots() + window@.len() < u32::MAX,
            window_fits(window@),
            forall|a: int, b: int|
                0 <= a < b < window@.len() ==> (#[trigger] window@[a]).arrival <= (#[trigger] window@[b]).arrival,
        ensures
            final(self).wf(),
            final(self).slots() <= old(self).slots() + window@.len(),
            final(self).spec_horizon() == old(self).spec_horizon(),
            final(self).spec_max_steps() == old(self).spec_max_steps(),
            final(self).items() == spec_update_steps(old(self).items(), window@),
    {
        proof {
            lemma_update_keeps_sorted(self.steps.items(), window@);
        }
        self.steps.update(window);
    }

    /// The cost of merging the step of handle `index` into the step before
    /// it: their distance times their difference of work; `None` for the
    /// first step.
    fn cost_li(&self, index: ListIndex) -> (r: Option<u64>)
        requires
            self.wf(),
            self.steps.handles().contains(index),
            works_sorted(self.items()),
        ensures
            forall|i: int|
                0 <= i < self.items().len() && #[trigger] self.steps.handles()[i] == index ==> r == if i
                    == 0 {
                    None
                } else {
                    Some(merge_cost(self.items(), i))
                },
    {
        self.steps.cost_li(index)
    }

    /// Merges the step of least merge cost (the last of them) into the step
    /// before it, which takes its work.
    fn compress_1(&mut self)
        requires
            old(self).wf(),
            works_sorted(old(self).items()),
        ensures
            final(self).wf(),
            final(self).slots() == old(self).slots(),
            final(self).spec_horizon() == old(self).spec_horizon(),
            final(self).spec_max_steps() == old(self).spec_max_steps(),
            final(self).items() == spec_merge_cheapest(old(self).items()),
    {
        let ghost s = self.steps.items();
        self.steps.compress_1();
        proof {
            lemma_merge_cheapest_sorted(s);
        }
    }

    /// One merging pass: a step less than `time_granularity` past the one
    /// before it is merged into it. Returns the number of merges.
    fn compress_res(&mut self, time_granularity: u64, work_granularity: u64) -> (r: usize)
        requires
            old(self).wf(),
        ensures
            final(self).wf(),
            final(self).slots() == old(self).slots(),
            final(self).spec_horizon() == old(self).spec_horizon(),
            final(self).spec_max_steps() == old(self).spec_max_steps(),
            final(self).items() == merge_pass_from(old(self).items(), time_granularity, 0).0,
            r == merge_pass_from(old(self).items(), time_granularity, 0).1,
    {
        self.steps.merge_close_steps(time_granularity, work_granularity)
    }

    /// While there are more steps than the maximum, merges the steps closer
    /// than a granularity that doubles at each pass.
    fn compress(&mut self)
        requires
            old(self).wf(),
            old(self).spec_max_steps() matches Some(m) ==> compressed(
                old(self).items(),
                m as nat,
                COMPRESS_TIME_GRANULARITY,
                COMPRESS_WORK_GRANULARITY,
            ) is Some,
        ensures
            final(self).wf(),
            final(self).slots() == old(self).slots(),
            final(self).spec_horizon() == old(self).spec_horizon(),
            final(self).spec_max_steps() == old(self).spec_max_steps(),
            final(self).items() == match old(self).spec_max_steps() {
                Some(m) => compressed(
                    old(self).items(),
                    m as nat,
                    COMPRESS_TIME_GRANULARITY,
                    COMPRESS_WORK_GRANULARITY,
                )->0,
                None => old(self).items(),
            },
    {
        if let Some(max_steps) = self.max_steps {
            let ghost s0 = self.steps.items();
            let mut time_granularity: u64 = COMPRESS_TIME_GRANULARITY;
            let mut work_granularity: u64 = COMPRESS_WORK_GRANULARITY;
            while self.steps.len() > max_steps
                invariant
                    self.wf(),
                    self.steps.slots() == old(self).steps.slots(),
                    self.max_steps == Some(max_steps),
                    self.horizon == old(self).horizon,
                    compressed(s0, max_steps as nat, COMPRESS_TIME_GRANULARITY, COMPRESS_WORK_GRANULARITY) is Some,
                    compressed(self.steps.items(), max_steps as nat, time_granularity, work_granularity)
                        == compressed(s0, max_steps as nat, COMPRESS_TIME_GRANULARITY, COMPRESS_WORK_GRANULARITY),
                decreases u64::MAX - time_granularity,
            {
                self.compress_res(time_granularity, work_granularity);
                time_granularity = time_granularity * 2;
                work_granularity = work_granularity * 2;
            }
        }
    }

    /// Drops the demands at the front of `window` that arrived at least
    /// `horizon - 1` before `last_arrival`.
    fn do_trim_window(window: &mut Vec<Demand>, horizon: u64, last_arrival: u64)
        requires
            last_arrival < u64::MAX,
            forall|i: int| 0 <= i < old(window)@.len() ==> (#[trigger] old(window)@[i]).arrival <= last_arrival,
        ensures
            final(window)@ == old(window)@.skip(first_recent(old(window)@, horizon, last_arrival, 0)),
    {
        let ghost w = window@;
        let n = window.len();
        let mut to_pop: usize = 0;
        while to_pop < n
            invariant
                w == window@,
                n == w.len(),
                0 <= to_pop <= n,
                last_arrival < u64::MAX,
                forall|i: int| 0 <= i < w.len() ==> (#[trigger] w[i]).arrival <= last_arrival,
                first_recent(w, horizon, last_arrival, 0) == first_recent(w, horizon, last_arrival, to_pop as int),
            ensures
                0 <= to_pop <= n,
                first_recent(w, horizon, last_arrival, 0) == to_pop,
            decreases n - to_pop,
        {
            let s = window[to_pop];
            if (last_arrival - s.arrival + 1) < horizon {
                break;
            }
            to_pop += 1;
        }
        let rest = window.split_off(to_pop);
        *window = rest;
    }

    /// Within a horizon, drops the demands that arrived a horizon or more
    /// before the last one.
    pub fn trim_window(&mut self, window: &mut Vec<Demand>)
        requires
            arrivals_ordered(old(window)@),
        ensures
            *final(self) == *old(self),
            final(window)@ == match old(self).spec_horizon() {
                Some(h) => if old(window)@.len() > 0 {
                    old(window)@.skip(first_recent(old(window)@, h, old(window)@.last().arrival, 0))
                } else {
                    old(window)@
                },
                None => old(window)@,
            },
    {
        if let Some(h) = self.horizon {
            let n = window.len();
            if n > 0 {
                let d = window[n - 1];
                proof {
                    assert forall|i: int| 0 <= i < window@.len() implies (#[trigger] window@[i]).arrival
                        <= d.arrival by {
                        assert(window@[i].arrival <= window@[n - 1].arrival);
                    }
                }
                Self::do_trim_window(window, h, d.arrival);
            }
        }
    }

    /// Takes the window into account: inserts its steps, drops the steps
    /// beyond the horizon and compresses the rest.
    pub fn on_window_update(&mut self, window: &[Demand])
        requires
            old(self).wf(),
            old(self).spec_can_take(window@),
        ensures
            final(self).wf(),
            final(self).spec_horizon() == old(self).spec_horizon(),
            final(self).spec_max_steps() == old(self).spec_max_steps(),
            final(self).slots() <= old(self).slots() + window@.len(),
            final(self).items() == old(self).spec_after_window(window@)->0,
    {
        self.do_update(window);
        self.do_trim_steps();
        self.compress();
    }

    /// The steps.
    pub fn steps(&self) -> (r: Vec<Step>)
        requires
            self.wf(),
        ensures
            r@ == as_steps(self.items()),
    {
        let pairs = self.steps.items_vec();
        let mut ret: Vec<Step> = Vec::new();
        let mut i: usize = 0;
        while i < pairs.len()
            invariant
                0 <= i <= pairs@.len(),
                pairs@ == self.items(),
                ret@ == as_steps(pairs@).take(i as int),
            decreases pairs@.len() - i,
        {
            let p = pairs[i];
            ret.push(Step { delta: p.0, work: p.1 });
            i += 1;
            proof {
                assert(ret@ =~= as_steps(pairs@).take(i as int));
            }
        }
        proof {
            assert(as_steps(pairs@).take(i as int) =~= as_steps(pairs@));
        }
        ret
    }
}


/// Step widths a switch to fixed widths on window `w` can use: at least
/// one, none empty, and the largest delta of the trackers built for `w`,
/// plus the sum of all widths, still fits in `u64`.
pub open spec fn widths_ok(ws: Seq<u64>, w: Seq<Demand>) -> bool {
    &&& ws.len() > 0
    &&& forall|i: int| 0 <= i < ws.len() ==> #[trigger] ws[i] >= 1
    &&& 1 + width_sum(ws, ws.len() as int) <= u64::MAX
    &&& w.len() > 0 ==> 1 + width_sum(ws, tracker_count(ws, span(w, 0), 1)) + width_sum(ws, ws.len() as int)
        <= u64::MAX
}

/// The pairs of an exact RBF: each step's delta with the work of the step
/// after it.
pub open spec fn shifted_pairs(s: Seq<(u64, u64)>) -> Seq<(u64, u64)> {
    if s.len() == 0 {
        Seq::empty()
    } else {
        Seq::new((s.len() - 1) as nat, |i: int| (s[i].0, s[i + 1].1))
    }
}

/// The steps of a fixed-width RBF as pairs.
pub open spec fn fixed_pairs(s: Seq<Step>) -> Seq<(u64, u64)> {
    Seq::new(s.len(), |i: int| (s[i].delta, s[i].work))
}

/// Either kind of RBF extractor.
pub enum InnerRbfExtractor {
    Exact(DynamicRbfExtractor),
    FixedSteps(FixedRbfExtractor),
}

impl InnerRbfExtractor {
    pub open spec fn wf(&self) -> bool {
        match self {
            InnerRbfExtractor::Exact(t) => t.wf(),
            InnerRbfExtractor::FixedSteps(t) => t.wf(),
        }
    }

    /// For fixed widths, every tracker covers the window `w`, and there is
    /// a tracker exactly when there is a demand.
    pub open spec fn covers(&self, w: Seq<Demand>) -> bool {
        match self {
            InnerRbfExtractor::Exact(_) => true,
            InnerRbfExtractor::FixedSteps(t) => {
                &&& (t.spec_trackers().len() == 0 <==> w.len() == 0)
                &&& forall|i: int| 0 <= i < t.spec_trackers().len() ==> tracks(#[trigger] t.spec_trackers()[i], w)
            },
        }
    }

    pub fn is_empty(&self) -> (r: bool)
        ensures
            r == match self {
                InnerRbfExtractor::Exact(t) => t.items().len() == 0,
                InnerRbfExtractor::FixedSteps(t) => t.spec_trackers().len() == 0,
            },
    {
        match self {
            InnerRbfExtractor::Exact(t) => t.is_empty(),
            InnerRbfExtractor::FixedSteps(t) => t.is_empty(),
        }
    }

    /// Takes the last demand of `new_window` into account.
    pub fn on_window_update(&mut self, new_window: &[Demand])
        requires
            old(self).wf(),
            new_window@.len() > 0,
            arrivals_ordered(new_window@),
            work_sum(new_window@) <= u64::MAX,
            old(self).covers(new_window@.drop_last()),
            *old(self) matches InnerRbfExtractor::Exact(t) ==> t.spec_can_take(new_window@),
        ensures
            final(self).wf(),
            match (*old(self), *final(self)) {
                (InnerRbfExtractor::Exact(t0), InnerRbfExtractor::Exact(t1)) => {
                    &&& t1.items() == t0.spec_after_window(new_window@)->0
                    &&& t1.spec_horizon() == t0.spec_horizon()
                    &&& t1.spec_max_steps() == t0.spec_max_steps()
                    &&& t1.slots() <= t0.slots() + new_window@.len()
                },
                (InnerRbfExtractor::FixedSteps(t0), InnerRbfExtractor::FixedSteps(t1)) => {
                    &&& t1.spec_widths() == t0.spec_widths()
                    &&& t1.spec_trim_count() == t0.spec_trim_count()
                    &&& t1.spec_trackers().len() > 0
                    &&& forall|i: int| 0 <= i < t1.spec_trackers().len() ==> tracks(
                        #[trigger] t1.spec_trackers()[i],
                        new_window@,
                    )
                },
                _ => false,
            },
    {
        match self {
            InnerRbfExtractor::Exact(t) => t.on_window_update(new_window),
            InnerRbfExtractor::FixedSteps(t) => {
                proof {
                    let w = new_window@;
                    if w.len() > 1 {
                        assert(w.drop_last().len() > 0);
                    }
                }
                t.on_window_update(new_window)
            },
        }
    }

    /// Drops the demands of the window that no longer count.
    pub fn trim_window(&mut self, window: &mut Vec<Demand>)
        requires
            old(self).wf(),
            old(window)@.len() > 0,
            arrivals_ordered(old(window)@),
            old(self).covers(old(window)@),
        ensures
            final(self).wf(),
            final(self).covers(final(window)@),
            exists|k: int| 0 <= k <= old(window)@.len() && final(window)@ == old(window)@.skip(k),
            match (*old(self), *final(self)) {
                (InnerRbfExtractor::Exact(t0), InnerRbfExtractor::Exact(t1)) => {
                    &&& t1 == t0
                    &&& final(window)@ == match t0.spec_horizon() {
                        Some(h) => old(window)@.skip(first_recent(old(window)@, h, old(window)@.last().arrival, 0)),
                        None => old(window)@,
                    }
                },
                (InnerRbfExtractor::FixedSteps(t0), InnerRbfExtractor::FixedSteps(t1)) => {
                    &&& t1.spec_widths() == t0.spec_widths()
                    &&& t1.spec_trackers().len() == t0.spec_trackers().len()
                    &&& final(window)@.len() > 0
                },
                _ => false,
            },
    {
        match self {
            InnerRbfExtractor::Exact(t) => {
                let ghost w = window@;
                t.trim_window(window);
                proof {
                    if let Some(h) = t.spec_horizon() {
                        lemma_first_recent(w, h, w.last().arrival, 0);
                        assert(w[w.len() - 1].arrival == w.last().arrival);
                    } else {
                        assert(w.skip(0) == w);
                    }
                }
            },
            InnerRbfExtractor::FixedSteps(t) => t.trim_window(window),
        }
    }
}

proof fn lemma_first_recent(w: Seq<Demand>, h: u64, last: u64, i: int)
    requires
        0 <= i <= w.len(),
        w.len() > 0,
        last == w.last().arrival,
    ensures
        i <= first_recent(w, h, last, i) <= w.len(),
        h >= 2 && i < w.len() ==> first_recent(w, h, last, i) < w.len(),
    decreases w.len() - i,
{
    if i < w.len() && last - w[i].arrival + 1 >= h {
        lemma_first_recent(w, h, last, i + 1);
        if i + 1 == w.len() {
            assert(w[i] == w.last());
        }
    }
}

/// RBF extractor that builds exact RBFs, with steps of any width, until
/// updates come too often; it then switches, for good, to steps of fixed
/// widths, less precise but cheaper to update.
pub struct RbfExtractor {
    step_widths: Vec<u64>,
    demand_tracker: DemandTracker,
    should_update: bool,
    window: Vec<Demand>,
    rbf_tracker: InnerRbfExtractor,
    limiter: RbfUpdateRateMonitor,
    demand_aggregator: DemandAggregator,
}

impl RbfExtractor {
    pub closed spec fn spec_widths(&self) -> Seq<u64> {
        self.step_widths@
    }

    pub closed spec fn spec_tracker(&self) -> DemandTracker {
        self.demand_tracker
    }

    pub closed spec fn spec_should_update(&self) -> bool {
        self.should_update
    }

    /// The demands that still count.
    pub closed spec fn spec_window(&self) -> Seq<Demand> {
        self.window@
    }

    pub closed spec fn spec_inner(&self) -> InnerRbfExtractor {
        self.rbf_tracker
    }

    pub closed spec fn spec_limiter(&self) -> RbfUpdateRateMonitor {
        self.limiter
    }

    pub closed spec fn spec_aggregator(&self) -> DemandAggregator {
        self.demand_aggregator
    }

    /// The window is in arrival order and its works add up in `u64`, and
    /// the RBF extractor is sound and covers it.
    pub open spec fn wf_window(&self) -> bool {
        &&& arrivals_ordered(self.spec_window())
        &&& work_sum(self.spec_window()) <= u64::MAX
        &&& self.spec_aggregator().spec_granularity() matches Some(t) ==> t > 0
        &&& self.spec_inner().wf()
        &&& self.spec_inner().covers(self.spec_window())
    }

    /// Besides, while exact, the rate limiter has not tripped.
    pub open spec fn wf(&self) -> bool {
        &&& self.wf_window()
        &&& self.spec_inner() is Exact ==> self.spec_limiter().spec_count() < self.spec_limiter().spec_budget()
    }

    /// Whether an update at time `ts` trips the rate limiter, which makes
    /// the extractor switch to fixed widths.
    pub open spec fn spec_switches(&self, ts: u64) -> bool {
        &&& self.spec_inner() is Exact
        &&& self.spec_limiter().spec_period_start() matches Some(s)
        &&& ts - s < self.spec_limiter().spec_period()
        &&& self.spec_limiter().spec_count() + 1 >= self.spec_limiter().spec_budget()
    }

    /// The demand that `event` gets out of the tracker and the aggregator,
    /// if any.
    pub open spec fn spec_demand_out(&self, event: TraceEvent) -> Option<Demand> {
        match spec_tracker_step(self.spec_tracker().spec_inner(), event).1 {
            Some(x) => self.spec_aggregator().spec_push_out(x),
            None => None,
        }
    }

    /// What taking `d` into the window needs: it comes in arrival order,
    /// the works still add up in `u64`, and, while the RBF is exact (`exact`
    /// says whether it stays so), its steps can take the window.
    pub open spec fn spec_can_consume(&self, d: Demand, exact: bool) -> bool {
        let w1 = self.spec_window().push(d);
        &&& self.spec_window().len() > 0 ==> self.spec_window().last().arrival <= d.arrival
        &&& d.arrival < u64::MAX
        &&& work_sum(w1) <= u64::MAX
        &&& exact ==> (self.spec_inner() matches InnerRbfExtractor::Exact(t) && t.spec_can_take(w1))
    }

    /// What `update` needs of an event: its timestamp fits the trackers,
    /// no work sum overflows, the widths can take a switch, and the demand
    /// it completes can be consumed.
    pub open spec fn spec_can_update(&self, event: TraceEvent) -> bool {
        let su = self.spec_should_update() || spec_is_syscall_entry(event.ev);
        su ==> {
            &&& spec_tracker_accepts(self.spec_tracker().spec_inner(), event)
            &&& spec_tracker_step(self.spec_tracker().spec_inner(), event).1 matches Some(raw) ==> {
                &&& (self.spec_aggregator().spec_last() matches Some(l) ==> l.work + raw.work <= u64::MAX)
                &&& self.spec_aggregator().spec_push_out(raw) matches Some(d) ==> {
                    &&& self.spec_inner() is Exact ==> (self.spec_limiter().spec_period_start() matches Some(s)
                        ==> s <= event.ts)
                    &&& self.spec_switches(event.ts) ==> widths_ok(self.spec_widths(), self.spec_window())
                    &&& self.spec_can_consume(d, self.spec_inner() is Exact && !self.spec_switches(event.ts))
                }
            }
        }
    }

    fn with_inner(rbf_tracker: InnerRbfExtractor, should_update: bool, step_widths: Vec<u64>) -> (r: Self)
        requires
            rbf_tracker.wf(),
            rbf_tracker.covers(Seq::empty()),
        ensures
            r.wf(),
            r.spec_inner() == rbf_tracker,
            r.spec_should_update() == should_update,
            r.spec_widths() == step_widths@,
            r.spec_window() == Seq::<Demand>::empty(),
            r.spec_tracker().spec_inner() == super::rbf::DemandTracker::new_spec(),
            r.spec_aggregator().spec_last() is None,
            r.spec_aggregator().spec_min_work() == Some(100_000u64),
            r.spec_aggregator().spec_granularity() == Some(10_000_000u64),
            r.spec_limiter().spec_period() == RBF_UPDATE_PERIOD,
            r.spec_limiter().spec_budget() == RBF_UPDATE_BUDGET,
            r.spec_limiter().spec_count() == 0,
            r.spec_limiter().spec_period_start() is None,
    {
        Self {
            step_widths,
            demand_tracker: DemandTracker::new(),
            should_update,
            window: Vec::new(),
            rbf_tracker,
            limiter: RbfUpdateRateMonitor::new(RBF_UPDATE_PERIOD, RBF_UPDATE_BUDGET),
            demand_aggregator: DemandAggregator::new(Some(100_000), Some(10_000_000)),
        }
    }

    /// The extractor the run parameters ask for: exact, with their maximum
    /// number of steps and horizon (none for 0), the default widths for a
    /// switch, and updating from the start unless they say otherwise.
    pub fn from_lime_context(ctx: &crate::context::LimeContext) -> (r: Self)
        ensures
            r.wf(),
            r.spec_inner() matches InnerRbfExtractor::Exact(t) && t.spec_max_steps() == Some(ctx.rbf_max_steps)
                && t.spec_horizon() == (if ctx.rbf_horizon == 0 {
                None::<u64>
            } else {
                Some(ctx.rbf_horizon)
            }) && t.items().len() == 0,
            r.spec_should_update() == !ctx.no_init_rbf_update,
            r.spec_widths() == RBF_DEFAULT_STEP_WIDTHS@,
            r.spec_window() == Seq::<Demand>::empty(),
    {
        let horizon = if ctx.rbf_horizon == 0 {
            None
        } else {
            Some(ctx.rbf_horizon)
        };
        let rbf = DynamicRbfExtractor::new(ctx.rbf_max_steps, horizon);
        let should_update = !ctx.no_init_rbf_update;
        let mut widths: Vec<u64> = Vec::new();
        let mut i: usize = 0;
        while i < 42
            invariant
                0 <= i <= 42,
                widths@ == RBF_DEFAULT_STEP_WIDTHS@.take(i as int),
            decreases 42 - i,
        {
            widths.push(RBF_DEFAULT_STEP_WIDTHS[i]);
            i += 1;
            proof {
                assert(widths@ =~= RBF_DEFAULT_STEP_WIDTHS@.take(i as int));
            }
        }
        proof {
            assert(RBF_DEFAULT_STEP_WIDTHS@.take(42) =~= RBF_DEFAULT_STEP_WIDTHS@);
        }
        Self::with_inner(InnerRbfExtractor::Exact(rbf), should_update, widths)
    }

    /// An extractor starting exact with `e`.
    pub fn from_exact_rbf_extractor(e: DynamicRbfExtractor, should_update: bool, step_widths: Vec<u64>) -> (r: Self)
        requires
            e.wf(),
        ensures
            r.wf(),
            r.spec_inner() == InnerRbfExtractor::Exact(e),
            r.spec_should_update() == should_update,
            r.spec_widths() == step_widths@,
            r.spec_window() == Seq::<Demand>::empty(),
    {
        Self::with_inner(InnerRbfExtractor::Exact(e), should_update, step_widths)
    }

    /// An extractor with fixed widths from the start, with `e`, which has
    /// no tracker yet.
    pub fn from_fixed_steps_rbf_extractor(e: FixedRbfExtractor, should_update: bool) -> (r: Self)
        requires
            e.wf(),
            e.spec_trackers().len() == 0,
        ensures
            r.wf(),
            r.spec_inner() == InnerRbfExtractor::FixedSteps(e),
            r.spec_should_update() == should_update,
            r.spec_window() == Seq::<Demand>::empty(),
    {
        let mut widths: Vec<u64> = Vec::new();
        let mut i: usize = 0;
        while i < 42
            invariant
                0 <= i <= 42,
            decreases 42 - i,
        {
            widths.push(RBF_DEFAULT_STEP_WIDTHS[i]);
            i += 1;
        }
        Self::with_inner(InnerRbfExtractor::FixedSteps(e), should_update, widths)
    }

    /// Switches from exact steps to fixed widths, with trackers built from
    /// the window and the exact steps; nothing happens once switched.
    pub fn switch_to_fixed_steps_extractor(&mut self)
        requires
            old(self).wf_window(),
            old(self).spec_inner() is Exact ==> widths_ok(old(self).spec_widths(), old(self).spec_window()),
        ensures
            final(self).wf(),
            final(self).spec_window() == old(self).spec_window(),
            final(self).spec_widths() == old(self).spec_widths(),
            final(self).spec_tracker() == old(self).spec_tracker(),
            final(self).spec_should_update() == old(self).spec_should_update(),
            final(self).spec_aggregator() == old(self).spec_aggregator(),
            final(self).spec_limiter() == old(self).spec_limiter(),
            final(self).spec_inner() is FixedSteps,
            match old(self).spec_inner() {
                InnerRbfExtractor::Exact(e) => final(self).spec_inner() matches InnerRbfExtractor::FixedSteps(
                    t,
                ) && t.spec_widths() == old(self).spec_widths() && t.spec_next_width() == 0 && t.spec_trim_count()
                    == 0 && t.spec_trackers().len() == (if old(self).spec_window().len() == 0 {
                    0
                } else {
                    tracker_count(old(self).spec_widths(), span(old(self).spec_window(), 0), 1)
                }) && forall|j: int|
                    0 <= j < t.spec_trackers().len() ==> {
                        let tr = #[trigger] t.spec_trackers()[j];
                        let k = sweep_at(e.items(), old(self).spec_widths(), j);
                        &&& tr.delta == 1 + width_sum(old(self).spec_widths(), j + 1)
                        &&& tracks(tr, old(self).spec_window())
                        &&& tr.max_demand == if k < e.items().len() && e.items()[k].1 > tr.curr_demand {
                            e.items()[k].1
                        } else {
                            tr.curr_demand
                        }
                    },
                InnerRbfExtractor::FixedSteps(_) => final(self).spec_inner() == old(self).spec_inner(),
            },
    {
        let new_rbf = match &self.rbf_tracker {
            InnerRbfExtractor::Exact(rbf) => {
                let ws = self.step_widths.clone();
                proof {
                    assert(ws@ =~= self.step_widths@);
                }
                Some(FixedRbfExtractor::from_exact_rbf_extractor(rbf, ws, self.window.as_slice()))
            },
            InnerRbfExtractor::FixedSteps(_) => None,
        };
        if let Some(new_rbf) = new_rbf {
            proof {
                let w = self.window@;
                if w.len() > 0 {
                    lemma_tracker_count(self.step_widths@, span(w, 0), 1);
                }
            }
            self.rbf_tracker = InnerRbfExtractor::FixedSteps(new_rbf);
        }
    }

    /// Whether an update at time `ts` trips the rate limiter: only while
    /// the RBF is exact.
    fn should_switch(&mut self, ts: u64) -> (r: bool)
        requires
            old(self).wf(),
            old(self).spec_inner() is Exact ==> (old(self).spec_limiter().spec_period_start() matches Some(s)
                ==> s <= ts),
        ensures
            r == old(self).spec_switches(ts),
            final(self).spec_window() == old(self).spec_window(),
            final(self).spec_widths() == old(self).spec_widths(),
            final(self).spec_tracker() == old(self).spec_tracker(),
            final(self).spec_should_update() == old(self).spec_should_update(),
            final(self).spec_aggregator() == old(self).spec_aggregator(),
            final(self).spec_inner() == old(self).spec_inner(),
            final(self).wf_window(),
            !r ==> final(self).wf(),
    {
        if let InnerRbfExtractor::Exact(_) = self.rbf_tracker {
            return self.limiter.update(ts);
        }
        false
    }

    /// Consumes the demand pending in the aggregator, if any.
    pub fn flush(&mut self)
        requires
            old(self).wf(),
            old(self).spec_aggregator().spec_last() matches Some(d) ==> old(self).spec_can_consume(
                d,
                old(self).spec_inner() is Exact,
            ),
        ensures
            final(self).wf(),
            final(self).spec_aggregator().spec_last() is None,
            old(self).spec_aggregator().spec_last() is None ==> final(self).spec_window() == old(self).spec_window(),
            old(self).spec_aggregator().spec_last() matches Some(d) ==> exists|k: int|
                0 <= k <= old(self).spec_window().len() + 1
                && final(self).spec_window() == old(self).spec_window().push(d).skip(k),
    {
        if let Some(demand) = self.demand_aggregator.flush() {
            self.consume_demand(demand);
        }
    }

    /// Updates the extractor with an event: once a system call was entered
    /// (or from the start when asked), the demands that complete, merged by
    /// the aggregator, enter the window, after a switch to fixed widths if
    /// they come too often.
    pub fn update(&mut self, event: &TraceEvent)
        requires
            old(self).wf(),
            old(self).spec_can_update(*event),
        ensures
            final(self).wf(),
            final(self).spec_should_update() == (old(self).spec_should_update() || spec_is_syscall_entry(
                event.ev,
            )),
            !final(self).spec_should_update() ==> *final(self) == *old(self),
            final(self).spec_should_update() ==> final(self).spec_tracker().spec_inner() == spec_tracker_step(
                old(self).spec_tracker().spec_inner(),
                *event,
            ).0,
            final(self).spec_should_update() && old(self).spec_demand_out(*event) is None
                ==> final(self).spec_window() == old(self).spec_window()
                && final(self).spec_inner() == old(self).spec_inner(),
            final(self).spec_should_update() ==> (old(self).spec_demand_out(*event) matches Some(d)
                ==> exists|k: int| 0 <= k <= old(self).spec_window().len() + 1
                && final(self).spec_window() == old(self).spec_window().push(d).skip(k)),
            final(self).spec_should_update() && old(self).spec_demand_out(*event) is Some
                ==> (final(self).spec_inner() is FixedSteps <==> (old(self).spec_inner() is FixedSteps
                || old(self).spec_switches(event.ts))),
    {
        if event.is_syscall_entry() {
            self.should_update = true;
        }
        if !self.should_update {
            return;
        }
        if let Some(demand) = self.demand_tracker.update(event) {
            if let Some(demand) = self.demand_aggregator.push(demand) {
                if self.should_switch(event.ts) {
                    self.switch_to_fixed_steps_extractor();
                }
                self.consume_demand(demand)
            }
        }
    }

    /// Returns true if no demand has been seen so far.
    pub fn is_empty(&self) -> (r: bool)
        ensures
            r == match self.spec_inner() {
                InnerRbfExtractor::Exact(t) => t.items().len() == 0,
                InnerRbfExtractor::FixedSteps(t) => t.spec_trackers().len() == 0,
            },
    {
        self.rbf_tracker.is_empty()
    }

    /// The steps of the RBF.
    pub fn steps(&self) -> (r: Vec<Step>)
        requires
            self.wf(),
        ensures
            r@ == match self.spec_inner() {
                InnerRbfExtractor::Exact(t) => as_steps(t.items()),
                InnerRbfExtractor::FixedSteps(t) => spec_steps(t.spec_trackers()),
            },
    {
        match &self.rbf_tracker {
            InnerRbfExtractor::Exact(t) => t.steps(),
            InnerRbfExtractor::FixedSteps(t) => t.steps(),
        }
    }

    /// The RBF as pairs: for exact steps, each delta with the work of the
    /// next step; for fixed widths, the steps themselves.
    pub fn step_pairs(&self) -> (r: Vec<(u64, u64)>)
        requires
            self.wf(),
        ensures
            r@ == match self.spec_inner() {
                InnerRbfExtractor::Exact(t) => shifted_pairs(t.items()),
                InnerRbfExtractor::FixedSteps(t) => fixed_pairs(spec_steps(t.spec_trackers())),
            },
    {
        let steps = self.steps();
        let mut ret: Vec<(u64, u64)> = Vec::new();
        match &self.rbf_tracker {
            InnerRbfExtractor::Exact(t) => {
                let ghost s = t.items();
                if steps.len() > 0 {
                    let mut i: usize = 0;
                    while i < steps.len() - 1
                        invariant
                            steps@ == as_steps(s),
                            steps@.len() == s.len(),
                            s.len() > 0,
                            0 <= i < s.len(),
                            ret@ == shifted_pairs(s).take(i as int),
                        decreases s.len() - i,
                    {
                        ret.push((steps[i].delta, steps[i + 1].work));
                        i += 1;
                        proof {
                            assert(ret@ =~= shifted_pairs(s).take(i as int));
                        }
                    }
                    proof {
                        assert(shifted_pairs(s).take(i as int) =~= shifted_pairs(s));
                    }
                } else {
                    proof {
                        assert(ret@ =~= shifted_pairs(s));
                    }
                }
            },
            InnerRbfExtractor::FixedSteps(t) => {
                let ghost s = steps@;
                let mut i: usize = 0;
                while i < steps.len()
                    invariant
                        s == steps@,
                        0 <= i <= s.len(),
                        ret@ == fixed_pairs(s).take(i as int),
                    decreases s.len() - i,
                {
                    ret.push((steps[i].delta, steps[i].work));
                    i += 1;
                    proof {
                        assert(ret@ =~= fixed_pairs(s).take(i as int));
                    }
                }
                proof {
                    assert(fixed_pairs(s).take(i as int) =~= fixed_pairs(s));
                }
            },
        }
        ret
    }

    /// Takes a demand into the window and the RBF, then trims the window.
    #[verifier::rlimit(80)]
    pub fn consume_demand(&mut self, demand: Demand)
        requires
            old(self).wf(),
            old(self).spec_can_consume(demand, old(self).spec_inner() is Exact),
        ensures
            final(self).wf(),
            final(self).spec_widths() == old(self).spec_widths(),
            final(self).spec_tracker() == old(self).spec_tracker(),
            final(self).spec_should_update() == old(self).spec_should_update(),
            final(self).spec_aggregator() == old(self).spec_aggregator(),
            final(self).spec_limiter() == old(self).spec_limiter(),
            exists|k: int|
                0 <= k <= old(self).spec_window().len() + 1 && final(self).spec_window() == old(
                    self,
                ).spec_window().push(demand).skip(k),
            match (old(self).spec_inner(), final(self).spec_inner()) {
                (InnerRbfExtractor::Exact(t0), InnerRbfExtractor::Exact(t1)) => {
                    let w1 = old(self).spec_window().push(demand);
                    &&& t1.items() == t0.spec_after_window(w1)->0
                    &&& t1.spec_horizon() == t0.spec_horizon()
                    &&& t1.spec_max_steps() == t0.spec_max_steps()
                    &&& final(self).spec_window() == match t0.spec_horizon() {
                        Some(h) => w1.skip(first_recent(w1, h, demand.arrival, 0)),
                        None => w1,
                    }
                },
                (InnerRbfExtractor::FixedSteps(t0), InnerRbfExtractor::FixedSteps(t1)) => {
                    &&& t1.spec_widths() == t0.spec_widths()
                    &&& t1.spec_trackers().len() > 0
                },
                _ => false,
            },
    {
        let ghost w0 = self.window@;
        self.window.push(demand);
        let ghost w1 = self.window@;
        proof {
            assert(w1.drop_last() =~= w0);
            assert forall|i: int, j: int| 0 <= i <= j < w1.len() implies (#[trigger] w1[i]).arrival <= (
            #[trigger] w1[j]).arrival by {
                if j == w1.len() - 1 && i < j {
                    assert(w1[i] == w0[i]);
                    assert(w0[i].arrival <= w0.last().arrival);
                } else if j < w1.len() - 1 {
                    assert(w1[i] == w0[i] && w1[j] == w0[j]);
                }
            }
        }
        self.rbf_tracker.on_window_update(self.window.as_slice());
        self.rbf_tracker.trim_window(&mut self.window);
        proof {
            let w2 = self.window@;
            let k = choose|k: int| 0 <= k <= w1.len() && w2 == w1.skip(k);
            lemma_work_sum_skip(w1, k);
            lemma_work_sum_nonneg(w1.take(k));
            assert(w1.last() == demand);
        }
    }

    /// The RBF.
    pub fn to_rbf(&self) -> (r: Rbf)
        requires
            self.wf(),
        ensures
            r.spec_steps() == match self.spec_inner() {
                InnerRbfExtractor::Exact(t) => shifted_pairs(t.items()),
                InnerRbfExtractor::FixedSteps(t) => fixed_pairs(spec_steps(t.spec_trackers())),
            },
    {
        Rbf::new(self.step_pairs())
    }
}

} // verus!
