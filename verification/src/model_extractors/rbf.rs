//! Request-bound functions (RBF): the processor time that a task may
//! demand in a time window of a given length.

use super::step_list::{
    handle_at, list_first, list_get, list_handles, list_insert_before, list_insert_last, list_items, list_last,
    list_len, list_new, list_next, list_prev, list_remove, list_remove_last, list_set, list_slots,
    list_wf,
};
use crate::events::{spec_is_suspension, EventData, TraceEvent};
use index_list::{IndexList, ListIndex};
use vstd::prelude::*;

verus! {

/// The work of the last step whose delta is at most `delta`.
pub open spec fn spec_step_lookup(steps: Seq<(u64, u64)>, delta: u64) -> Option<u64>
    decreases steps.len(),
{
    if steps.len() == 0 {
        None
    } else if delta >= steps.last().0 {
        Some(steps.last().1)
    } else {
        spec_step_lookup(steps.drop_last(), delta)
    }
}

/// `delta` is within the steps: at most the delta of the last one.
pub open spec fn spec_is_covered(steps: Seq<(u64, u64)>, delta: u64) -> bool {
    steps.len() > 0 && delta <= steps.last().0
}

/// The request bound of the steps at `delta`: 0 for 0, the work of the last
/// step at or below `delta` when `delta` is covered, `None` otherwise.
pub open spec fn spec_request_bound(steps: Seq<(u64, u64)>, delta: u64) -> Option<u64> {
    if delta == 0 {
        Some(0)
    } else if spec_is_covered(steps, delta) {
        spec_step_lookup(steps, delta)
    } else {
        None
    }
}

proof fn lemma_lookup_finds(steps: Seq<(u64, u64)>, delta: u64, i: int)
    requires
        0 <= i < steps.len(),
        steps[i].0 <= delta,
    ensures
        spec_step_lookup(steps, delta) is Some,
    decreases steps.len(),
{
    if delta < steps.last().0 {
        lemma_lookup_finds(steps.drop_last(), delta, i);
    }
}

/// A delta is covered exactly when it has a request bound, as long as some
/// step starts at or below it: every delta but 0 on an RBF without steps,
/// and, on an RBF with steps, every delta for which some step starts at or
/// below it, or 0.
pub proof fn lemma_covered_iff_bounded(rbf: Rbf, delta: u64)
    requires
        rbf.spec_steps().len() == 0 ==> delta != 0,
        rbf.spec_steps().len() > 0 && delta != 0 && delta <= rbf.spec_steps().last().0 ==> exists|i: int|
            0 <= i < rbf.spec_steps().len() && (#[trigger] rbf.spec_steps()[i]).0 <= delta,
    ensures
        spec_is_covered(rbf.spec_steps(), delta) <==> spec_request_bound(rbf.spec_steps(), delta) is Some,
{
    let s = rbf.spec_steps();
    if s.len() > 0 && delta != 0 && delta <= s.last().0 {
        let i = choose|i: int| 0 <= i < s.len() && (#[trigger] s[i]).0 <= delta;
        lemma_lookup_finds(s, delta, i);
    }
}

/// An extracted RBF, as steps `(delta, work)`.
pub struct Rbf {
    steps: Vec<(u64, u64)>,
}

impl Rbf {
    pub closed spec fn spec_steps(&self) -> Seq<(u64, u64)> {
        self.steps@
    }

    pub fn new(steps: Vec<(u64, u64)>) -> (r: Self)
        ensures
            r.spec_steps() == steps@,
    {
        Self { steps }
    }

    /// An upper bound of the processor time demanded in a time interval of
    /// length `delta`; `None` if `delta` is not covered.
    pub fn request_bound(&self, delta: u64) -> (r: Option<u64>)
        ensures
            r == spec_request_bound(self.spec_steps(), delta),
    {
        if delta == 0 {
            return Some(0);
        }
        if self.is_delta_covered(delta) {
            let ghost s = self.steps@;
            let mut i: usize = self.steps.len();
            proof {
                assert(s.take(s.len() as int) == s);
            }
            while i > 0
                invariant
                    s == self.steps@,
                    delta != 0,
                    s.len() > 0 && delta <= s.last().0,
                    0 <= i <= s.len(),
                    spec_step_lookup(s, delta) == spec_step_lookup(s.take(i as int), delta),
                decreases i,
            {
                proof {
                    assert(s.take(i as int).drop_last() == s.take(i - 1));
                    assert(s.take(i as int).last() == s[i - 1]);
                }
                if delta >= self.steps[i - 1].0 {
                    return Some(self.steps[i - 1].1);
                }
                i -= 1;
            }
            return None;
        }
        None
    }

    /// The biggest delta covered, `None` if there is no step.
    pub fn max_delta_covered(&self) -> (r: Option<u64>)
        ensures
            self.spec_steps().len() == 0 ==> r is None,
            self.spec_steps().len() > 0 ==> r == Some(self.spec_steps().last().0),
    {
        let n = self.steps.len();
        if n == 0 {
            None
        } else {
            Some(self.steps[n - 1].0)
        }
    }

    /// Returns true if `delta` is covered.
    pub fn is_delta_covered(&self, delta: u64) -> (r: bool)
        ensures
            r == spec_is_covered(self.spec_steps(), delta),
    {
        match self.max_delta_covered() {
            Some(m) => delta <= m,
            None => false,
        }
    }

    /// The steps.
    pub fn steps(&self) -> (r: &[(u64, u64)])
        ensures
            r@ == self.spec_steps(),
    {
        self.steps.as_slice()
    }
}

impl Default for Rbf {
    fn default() -> (r: Self)
        ensures
            r.spec_steps() == Seq::<(u64, u64)>::empty(),
    {
        Self { steps: Vec::new() }
    }
}

/// An RBF step.
#[derive(PartialEq, Eq, Clone, Copy, Debug, Structural)]
pub struct Step {
    pub delta: u64,
    pub work: u64,
}

/// Processor time demanded by a job arriving at `arrival`.
#[derive(PartialEq, Eq, Clone, Copy, Debug, Structural)]
pub struct Demand {
    pub arrival: u64,
    pub work: u64,
}

impl Demand {
    pub fn new(arrival: u64, work: u64) -> (r: Self)
        ensures
            r == (Demand { arrival, work }),
    {
        Self { arrival, work }
    }

    /// A demand whose arrival is rounded down to a multiple of the
    /// granularity.
    pub fn new_rounded(arrival: u64, work: u64, time_granularity_ns: u64) -> (r: Self)
        requires
            time_granularity_ns > 0,
        ensures
            r == (Demand { arrival: (arrival - arrival % time_granularity_ns) as u64, work }),
    {
        assert(arrival % time_granularity_ns <= arrival) by (nonlinear_arith)
            requires
                time_granularity_ns > 0,
        ;
        let rounded_arrival = arrival - (arrival % time_granularity_ns);
        Self::new(rounded_arrival, work)
    }
}

/// What the aggregator's spec functions give.
pub broadcast group group_aggregator {
    DemandAggregator::lemma_with_last,
    DemandAggregator::lemma_spec_with,
    DemandAggregator::lemma_wf,
}

/// Merges consecutive demands arriving at the same (rounded) time.
#[derive(PartialEq, Eq, Clone, Copy, Debug, Structural)]
pub struct DemandAggregator {
    last_demand: Option<Demand>,
    time_granularity_ns: Option<u64>,
}

/// `demand` with its arrival rounded to the granularity of `agg`.
pub open spec fn spec_round(agg: DemandAggregator, demand: Demand) -> Demand {
    match agg.spec_granularity() {
        Some(g) => Demand { arrival: (demand.arrival - demand.arrival % g) as u64, work: demand.work },
        None => demand,
    }
}

/// Pushing `demand` into `agg` causes no overflow.
pub open spec fn spec_can_push(agg: DemandAggregator, demand: Demand) -> bool {
    agg.spec_last() matches Some(l) ==> (l.arrival == spec_round(agg, demand).arrival ==> l.work
        + demand.work <= u64::MAX)
}

/// What pushing `demand` makes of the aggregator, and what comes out.
pub open spec fn spec_aggregate(agg: DemandAggregator, demand: Demand) -> (DemandAggregator, Option<Demand>) {
    let d = spec_round(agg, demand);
    match agg.spec_last() {
        Some(l) => if l.arrival == d.arrival {
            (agg.with_last(Some(Demand { arrival: l.arrival, work: (l.work + d.work) as u64 })), None)
        } else {
            (agg.with_last(Some(d)), Some(l))
        },
        None => (agg.with_last(Some(d)), None),
    }
}

impl DemandAggregator {
    pub closed spec fn spec_last(&self) -> Option<Demand> {
        self.last_demand
    }

    pub closed spec fn spec_granularity(&self) -> Option<u64> {
        self.time_granularity_ns
    }

    pub closed spec fn with_last(self, last: Option<Demand>) -> Self {
        DemandAggregator { last_demand: last, ..self }
    }

    pub closed spec fn spec_with(last: Option<Demand>, granularity: Option<u64>) -> Self {
        DemandAggregator { last_demand: last, time_granularity_ns: granularity }
    }

    pub closed spec fn wf(&self) -> bool {
        self.time_granularity_ns matches Some(g) ==> g > 0
    }

    /// An aggregator with another pending demand keeps its granularity.
    pub broadcast proof fn lemma_with_last(self, last: Option<Demand>)
        ensures
            #[trigger] self.with_last(last).spec_last() == last,
            self.with_last(last).spec_granularity() == self.spec_granularity(),
            self.with_last(last).wf() == self.wf(),
    {
    }

    /// An aggregator made of a pending demand and a granularity.
    pub broadcast proof fn lemma_spec_with(last: Option<Demand>, granularity: Option<u64>)
        ensures
            #[trigger] DemandAggregator::spec_with(last, granularity).spec_last() == last,
            DemandAggregator::spec_with(last, granularity).spec_granularity() == granularity,
            DemandAggregator::spec_with(last, granularity).wf() == (granularity matches Some(g) ==> g > 0),
    {
    }

    /// A well-formed aggregator has no granularity, or a positive one.
    pub broadcast proof fn lemma_wf(self)
        ensures
            #[trigger] self.wf() == (self.spec_granularity() matches Some(g) ==> g > 0),
    {
    }

    /// Whether pushing `demand` causes no overflow: see `spec_can_push`.
    pub fn can_push(&self, demand: &Demand) -> (r: bool)
        requires
            self.wf(),
        ensures
            r == spec_can_push(*self, *demand),
    {
        let d = match self.time_granularity_ns {
            Some(g) => Demand::new_rounded(demand.arrival, demand.work, g),
            None => *demand,
        };
        match self.last_demand {
            Some(l) => l.arrival != d.arrival || l.work.checked_add(demand.work).is_some(),
            None => true,
        }
    }

    pub fn new(time_granularity_ns: Option<u64>) -> (r: Self)
        requires
            time_granularity_ns matches Some(g) ==> g > 0,
        ensures
            r.wf(),
            r.spec_last() is None,
            r.spec_granularity() == time_granularity_ns,
    {
        Self { last_demand: None, time_granularity_ns }
    }

    pub fn get_time_granularity_ns(&self) -> (r: Option<u64>)
        ensures
            r == self.spec_granularity(),
    {
        self.time_granularity_ns
    }

    /// Returns true once a granularity is set.
    pub fn is_active(&self) -> (r: bool)
        ensures
            r == (self.spec_granularity() is Some),
    {
        self.time_granularity_ns.is_some()
    }

    pub fn set_time_granularity_ns(&mut self, val: u64)
        requires
            val > 0,
        ensures
            final(self).wf(),
            final(self).spec_granularity() == Some(val),
            final(self).spec_last() == old(self).spec_last(),
    {
        self.time_granularity_ns = Some(val);
    }

    fn should_aggregate(&self, d1: &Demand, d2: &Demand) -> (r: bool)
        ensures
            r == (d1.arrival == d2.arrival),
    {
        d1.arrival == d2.arrival
    }

    /// Returns the pending demand, if any.
    pub fn flush(&mut self) -> (r: Option<Demand>)
        ensures
            r == old(self).spec_last(),
            *final(self) == old(self).with_last(None),
            final(self).spec_last() is None,
            final(self).spec_granularity() == old(self).spec_granularity(),
    {
        self.last_demand.take()
    }

    /// Pushes a demand; returns the previous one when it cannot be merged
    /// with it.
    pub fn push(&mut self, demand: Demand) -> (r: Option<Demand>)
        requires
            old(self).wf(),
            spec_can_push(*old(self), demand),
        ensures
            final(self).wf(),
            (*final(self), r) == spec_aggregate(*old(self), demand),
            final(self).spec_granularity() == old(self).spec_granularity(),
            final(self).spec_last() == Some(match old(self).spec_last() {
                Some(l) => if l.arrival == spec_round(*old(self), demand).arrival {
                    Demand { arrival: l.arrival, work: (l.work + demand.work) as u64 }
                } else {
                    spec_round(*old(self), demand)
                },
                None => spec_round(*old(self), demand),
            }),
    {
        let demand = match self.time_granularity_ns {
            Some(g) => Demand::new_rounded(demand.arrival, demand.work, g),
            None => demand,
        };

        match self.last_demand.take() {
            Some(d) => {
                if self.should_aggregate(&d, &demand) {
                    self.last_demand = Some(Demand { arrival: d.arrival, work: d.work + demand.work });
                    None
                } else {
                    self.last_demand = Some(demand);
                    Some(d)
                }
            },
            None => {
                self.last_demand = Some(demand);
                None
            },
        }
    }
}

/// Pushes the demands of `ds` in order into `agg`; returns the aggregator
/// and the demands that come out.
pub open spec fn spec_aggregate_all(agg: DemandAggregator, ds: Seq<Demand>) -> (DemandAggregator, Seq<Demand>)
    decreases ds.len(),
{
    if ds.len() == 0 {
        (agg, Seq::empty())
    } else {
        let (a1, out1) = spec_aggregate_all(agg, ds.drop_last());
        let (a2, o) = spec_aggregate(a1, ds.last());
        (a2, match o {
            Some(x) => out1.push(x),
            None => out1,
        })
    }
}

/// Total work of `ds`.
pub open spec fn work_sum(ds: Seq<Demand>) -> int
    decreases ds.len(),
{
    if ds.len() == 0 {
        0
    } else {
        work_sum(ds.drop_last()) + ds.last().work
    }
}

/// Number of leading demands of `ds` that trimming drops: while more than
/// three remain and the demand arrived at least `h` before `last`.
pub open spec fn trim_count(ds: Seq<Demand>, last: u64, h: u64) -> nat
    decreases ds.len(),
{
    if ds.len() <= 3 || !(last - ds[0].arrival >= h) {
        0
    } else {
        1 + trim_count(ds.drop_first(), last, h)
    }
}

proof fn lemma_trim_count(ds: Seq<Demand>, last: u64, h: u64)
    ensures
        trim_count(ds, last, h) <= ds.len(),
        ds.len() <= 3 ==> trim_count(ds, last, h) == 0,
        ds.len() > 3 ==> ds.len() - trim_count(ds, last, h) >= 3,
        forall|i: int| 0 <= i < trim_count(ds, last, h) ==> last - (#[trigger] ds[i]).arrival >= h,
        ds.len() - trim_count(ds, last, h) > 3 ==> last - ds[trim_count(ds, last, h) as int].arrival < h,
    decreases ds.len(),
{
    if !(ds.len() <= 3 || !(last - ds[0].arrival >= h)) {
        let t = ds.drop_first();
        lemma_trim_count(t, last, h);
        assert forall|i: int| 0 <= i < trim_count(ds, last, h) implies last - (#[trigger] ds[i]).arrival >= h by {
            if i > 0 {
                assert(ds[i] == t[i - 1]);
            }
        }
        if ds.len() - trim_count(ds, last, h) > 3 {
            assert(ds[trim_count(ds, last, h) as int] == t[trim_count(t, last, h) as int]);
        }
    }
}

/// Trimming a window `w` to a horizon `h`, as `DemandWindow::trim` does,
/// leaves a suffix `w2` of it: the demands dropped all arrived at least
/// `h` before the newest one, so every demand that arrived less than `h`
/// before it stays; at least three demands stay (all of them when there
/// are no more than three); and the oldest demand kept arrived less than
/// `h` before the newest one unless only three are left.
pub proof fn law_trim_keeps_recent(w: Seq<Demand>, w2: Seq<Demand>, h: u64)
    requires
        w.len() > 0,
        w2 == w.skip(trim_count(w, w.last().arrival, h) as int),
    ensures
        w2.len() <= w.len(),
        w2 == w.skip(w.len() - w2.len()),
        forall|i: int| 0 <= i < w.len() - w2.len() ==> w.last().arrival - (#[trigger] w[i]).arrival >= h,
        forall|i: int|
            0 <= i < w.len() && w.last().arrival - (#[trigger] w[i]).arrival < h ==> i >= w.len() - w2.len(),
        w.len() <= 3 ==> w2 == w,
        w.len() > 3 ==> w2.len() >= 3,
        w2.len() > 3 ==> w.last().arrival - w2[0].arrival < h,
{
    lemma_trim_count(w, w.last().arrival, h);
    let k = trim_count(w, w.last().arrival, h) as int;
    assert(w2.len() == w.len() - k);
    if w.len() <= 3 {
        assert(w2 =~= w);
    }
    if w2.len() > 3 {
        assert(w2[0] == w[k]);
    }
}

/// Turns scheduling events into demands: a job arrives when the thread
/// wakes up (minus the time it waited for a processor) and demands the
/// processor time until it suspends.
#[derive(PartialEq, Eq, Clone, Copy, Debug, Structural)]
pub struct DemandTracker {
    pub preempted: u64,
    pub arrival: Option<u64>,
    pub last_switched_in: Option<u64>,
    pub last_preempted: Option<u64>,
    pub work: u64,
    pub sleeping: bool,
}

/// The timestamps of `event` are consistent with the tracker's state.
pub open spec fn spec_tracker_accepts(t: DemandTracker, event: TraceEvent) -> bool {
    let ts = event.ts;
    match event.ev {
        EventData::SchedSwitchedIn { .. } => {
            &&& t.arrival is None ==> ts >= t.preempted
            &&& t.last_preempted matches Some(lp) ==> ts >= lp && t.preempted + (ts - lp) <= u64::MAX
        },
        EventData::SchedSwitchedOut { .. } => {
            t.arrival is Some ==> (t.last_switched_in matches Some(ls) ==> ts >= ls && t.work + (ts
                - ls) <= u64::MAX)
        },
        EventData::SchedWakeUp { .. } => t.sleeping ==> ts >= t.preempted,
        _ => true,
    }
}

/// The tracker after `event`, and the demand that the event completes.
pub open spec fn spec_tracker_step(t: DemandTracker, event: TraceEvent) -> (DemandTracker, Option<Demand>) {
    let ts = event.ts;
    match event.ev {
        EventData::SchedSwitchedIn { .. } => {
            let t1 = DemandTracker { last_switched_in: Some(ts), ..t };
            let t2 = if t1.arrival is None {
                DemandTracker { arrival: Some((ts - t1.preempted) as u64), ..t1 }
            } else {
                t1
            };
            let t3 = match t2.last_preempted {
                Some(lp) => DemandTracker {
                    last_preempted: None,
                    preempted: (t2.preempted + (ts - lp)) as u64,
                    ..t2
                },
                None => t2,
            };
            (t3, None)
        },
        EventData::SchedSwitchedOut { .. } => if !spec_is_suspension(event.ev) {
            if t.arrival is None {
                (t, None)
            } else {
                let t1 = DemandTracker { last_preempted: Some(ts), ..t };
                let t2 = match t1.last_switched_in {
                    Some(ls) => DemandTracker { work: (t1.work + (ts - ls)) as u64, ..t1 },
                    None => t1,
                };
                (t2, None)
            }
        } else {
            let t1 = DemandTracker { sleeping: true, ..t };
            match t1.arrival {
                None => (t1, None),
                Some(a) => match t1.last_switched_in {
                    Some(ls) => {
                        let w = (t1.work + (ts - ls)) as u64;
                        (DemandTracker { work: w, ..t1 }, Some(Demand { arrival: a, work: w }))
                    },
                    None => (t1, None),
                },
            }
        },
        EventData::SchedWakeUp { .. } => if t.sleeping {
            (
                DemandTracker {
                    arrival: Some((ts - t.preempted) as u64),
                    last_preempted: Some(ts),
                    work: 0,
                    sleeping: false,
                    ..t
                },
                None,
            )
        } else {
            (t, None)
        },
        _ => (t, None),
    }
}

impl DemandTracker {
    pub open spec fn new_spec() -> Self {
        DemandTracker {
            preempted: 0,
            arrival: None,
            last_switched_in: None,
            last_preempted: None,
            work: 0,
            sleeping: false,
        }
    }

    pub fn new() -> (r: Self)
        ensures
            r == (DemandTracker {
                preempted: 0,
                arrival: None,
                last_switched_in: None,
                last_preempted: None,
                work: 0,
                sleeping: false,
            }),
    {
        Self {
            preempted: 0,
            arrival: None,
            last_switched_in: None,
            last_preempted: None,
            work: 0,
            sleeping: false,
        }
    }

    fn handle_wake_up(&mut self, event: &TraceEvent)
        requires
            old(self).sleeping ==> event.ts >= old(self).preempted,
            event.ev is SchedWakeUp,
        ensures
            *final(self) == spec_tracker_step(*old(self), *event).0,
    {
        if self.sleeping {
            self.arrival = Some(event.ts - self.preempted);
            self.last_preempted = Some(event.ts);
            self.work = 0;
            self.sleeping = false;
        }
    }

    fn handle_switched_in(&mut self, event: &TraceEvent)
        requires
            spec_tracker_accepts(*old(self), *event),
            event.ev is SchedSwitchedIn,
        ensures
            *final(self) == spec_tracker_step(*old(self), *event).0,
    {
        self.last_switched_in = Some(event.ts);
        if self.arrival.is_none() {
            self.arrival = Some(event.ts - self.preempted);
        }
        if let Some(last_preempted) = self.last_preempted.take() {
            self.preempted += event.ts - last_preempted;
        }
    }

    fn handle_preemption(&mut self, event: &TraceEvent)
        requires
            spec_tracker_accepts(*old(self), *event),
            event.ev is SchedSwitchedOut,
            !spec_is_suspension(event.ev),
        ensures
            *final(self) == spec_tracker_step(*old(self), *event).0,
    {
        if self.arrival.is_none() {
            return;
        }
        self.last_preempted = Some(event.ts);
        if let Some(last_switched_in) = self.last_switched_in {
            self.work += event.ts - last_switched_in;
        }
    }

    fn handle_suspension(&mut self, event: &TraceEvent) -> (r: Option<Demand>)
        requires
            spec_tracker_accepts(*old(self), *event),
            event.ev is SchedSwitchedOut,
            spec_is_suspension(event.ev),
        ensures
            (*final(self), r) == spec_tracker_step(*old(self), *event),
    {
        self.sleeping = true;
        let arrival = match self.arrival {
            Some(a) => a,
            None => return None,
        };
        if let Some(last_switched_in) = self.last_switched_in {
            self.work += event.ts - last_switched_in;
            let demand = Demand { arrival, work: self.work };
            return Some(demand);
        }
        None
    }

    /// Whether the timestamps of `event` are consistent with the state, as
    /// `update` needs.
    pub fn accepts(&self, event: &TraceEvent) -> (r: bool)
        ensures
            r == spec_tracker_accepts(*self, *event),
    {
        let ts = event.ts;
        match event.ev {
            EventData::SchedSwitchedIn { .. } => {
                if self.arrival.is_none() && ts < self.preempted {
                    return false;
                }
                match self.last_preempted {
                    Some(lp) => ts >= lp && ts - lp <= u64::MAX - self.preempted,
                    None => true,
                }
            },
            EventData::SchedSwitchedOut { .. } => {
                if self.arrival.is_none() {
                    return true;
                }
                match self.last_switched_in {
                    Some(ls) => ts >= ls && ts - ls <= u64::MAX - self.work,
                    None => true,
                }
            },
            EventData::SchedWakeUp { .. } => !self.sleeping || ts >= self.preempted,
            _ => true,
        }
    }

    /// Consumes an event; returns the demand it completes, if any.
    pub fn update(&mut self, event: &TraceEvent) -> (r: Option<Demand>)
        requires
            spec_tracker_accepts(*old(self), *event),
        ensures
            (*final(self), r) == spec_tracker_step(*old(self), *event),
    {
        match event.ev {
            EventData::SchedSwitchedIn { .. } => {
                self.handle_switched_in(event);
                None
            },
            EventData::SchedSwitchedOut { .. } => {
                if !event.is_suspension() {
                    self.handle_preemption(event);
                    None
                } else {
                    self.handle_suspension(event)
                }
            },
            EventData::SchedWakeUp { .. } => {
                self.handle_wake_up(event);
                None
            },
            _ => None,
        }
    }
}

impl Default for DemandTracker {
    fn default() -> (r: Self)
        ensures
            r == (DemandTracker {
                preempted: 0,
                arrival: None,
                last_switched_in: None,
                last_preempted: None,
                work: 0,
                sleeping: false,
            }),
    {
        Self::new()
    }
}

/// The default horizon when none is given, in nanoseconds.
pub const DEFAULT_HORIZON: u64 = 10_000_000_000;

/// The window of recent demands, aggregated once there are too many.
pub struct DemandWindow {
    demand_tracker: DemandTracker,
    aggregator: DemandAggregator,
    demands: Vec<Demand>,
    horizon: Option<u64>,
    max_length: usize,
}

impl DemandWindow {
    pub closed spec fn tracker(&self) -> DemandTracker {
        self.demand_tracker
    }

    pub closed spec fn aggregator(&self) -> DemandAggregator {
        self.aggregator
    }

    pub closed spec fn window(&self) -> Seq<Demand> {
        self.demands@
    }

    pub closed spec fn spec_horizon(&self) -> Option<u64> {
        self.horizon
    }

    pub closed spec fn spec_max_length(&self) -> usize {
        self.max_length
    }

    pub fn new(horizon: Option<u64>, max_length: usize) -> (r: Self)
        ensures
            r.aggregator().wf(),
            r.tracker() == DemandTracker::new_spec(),
            r.aggregator().spec_last() is None,
            r.aggregator().spec_granularity() is None,
            r.window() == Seq::<Demand>::empty(),
            r.spec_horizon() == horizon,
            r.spec_max_length() == max_length,
    {
        Self {
            demand_tracker: DemandTracker::new(),
            demands: Vec::new(),
            aggregator: DemandAggregator::new(None),
            horizon,
            max_length,
        }
    }

    /// True when the window holds too many demands and no granularity is
    /// set yet.
    pub fn should_increase_granularity(&self) -> (r: bool)
        ensures
            r == (self.window().len() > self.spec_max_length() && self.aggregator().spec_granularity() is None),
    {
        self.demands.len() > self.max_length && self.aggregator.get_time_granularity_ns().is_none()
    }

    /// The granularity that `increase_granularity` sets.
    pub open spec fn spec_new_granularity(&self) -> int {
        ((match self.spec_horizon() {
            Some(h) => h,
            None => DEFAULT_HORIZON,
        }) as int) / (self.spec_max_length() as int)
    }

    /// Flushes the pending demand, sets a granularity of the horizon over
    /// the maximal length, and aggregates the window again with it.
    pub fn increase_granularity(&mut self)
        requires
            old(self).aggregator().wf(),
            old(self).spec_max_length() > 0,
            old(self).spec_new_granularity() > 0,
            work_sum(old(self).window()) + match old(self).aggregator().spec_last() {
                Some(l) => l.work as int,
                None => 0,
            } <= u64::MAX,
        ensures
            final(self).aggregator().wf(),
            final(self).tracker() == old(self).tracker(),
            final(self).spec_horizon() == old(self).spec_horizon(),
            final(self).spec_max_length() == old(self).spec_max_length(),
            ({
                let flushed = match old(self).aggregator().spec_last() {
                    Some(l) => old(self).window().push(l),
                    None => old(self).window(),
                };
                let start = DemandAggregator::spec_with(None, Some(old(self).spec_new_granularity() as u64));
                (final(self).aggregator(), final(self).window()) == spec_aggregate_all(start, flushed)
            }),
    {
        let ghost w0 = self.demands@;
        if let Some(d) = self.aggregator.flush() {
            self.push_aggregated_demand(d);
        }
        let ghost flushed = self.demands@;
        proof {
            lemma_work_sum_push_bound(w0, old(self).aggregator().spec_last());
        }
        let h = match self.horizon {
            Some(h) => h,
            None => DEFAULT_HORIZON,
        };
        let new_granularity = h / (self.max_length as u64);
        self.aggregator.set_time_granularity_ns(new_granularity);
        let ghost start = self.aggregator;
        proof {
            assert(start == DemandAggregator::spec_with(None, Some(new_granularity)));
            assert(flushed.take(0) =~= Seq::<Demand>::empty());
            assert(flushed.skip(0) == flushed);
        }
        let mut new_demands: Vec<Demand> = Vec::new();
        let mut i: usize = 0;
        while i < self.demands.len()
            invariant
                flushed == self.demands@,
                0 <= i <= flushed.len(),
                self.aggregator.wf(),
                self.demand_tracker == old(self).demand_tracker,
                self.horizon == old(self).horizon,
                self.max_length == old(self).max_length,
                (self.aggregator, new_demands@) == spec_aggregate_all(start, flushed.take(i as int)),
                work_sum(flushed) <= u64::MAX,
                self.aggregator.spec_last() matches Some(l) ==> l.work + work_sum(flushed.skip(i as int)) <= work_sum(flushed),
                self.aggregator.spec_last() is None ==> work_sum(flushed.skip(i as int)) <= work_sum(flushed),
            decreases flushed.len() - i,
        {
            let d = self.demands[i];
            proof {
                assert(flushed.take(i + 1).drop_last() == flushed.take(i as int));
                assert(flushed.take(i + 1).last() == d);
                lemma_work_sum_skip(flushed, i as int);
                lemma_work_sum_skip(flushed, i + 1);
                lemma_work_sum_nonneg(flushed.skip(i + 1));
            }
            let out = self.aggregator.push(d);
            if let Some(agg) = out {
                new_demands.push(agg);
            }
            i += 1;
        }
        proof {
            assert(flushed.take(flushed.len() as int) == flushed);
        }
        self.demands = new_demands;
    }

    fn push_aggregated_demand(&mut self, demand: Demand)
        ensures
            final(self).window() == old(self).window().push(demand),
            final(self).tracker() == old(self).tracker(),
            final(self).aggregator() == old(self).aggregator(),
            final(self).spec_horizon() == old(self).spec_horizon(),
            final(self).spec_max_length() == old(self).spec_max_length(),
    {
        self.demands.push(demand);
    }

    fn do_update(&mut self, event: &TraceEvent) -> (r: bool)
        requires
            old(self).aggregator().wf(),
            spec_tracker_accepts(old(self).tracker(), *event),
            spec_tracker_step(old(self).tracker(), *event).1 matches Some(raw) ==> spec_can_push(
                old(self).aggregator(),
                raw,
            ),
        ensures
            final(self).aggregator().wf(),
            final(self).spec_horizon() == old(self).spec_horizon(),
            final(self).spec_max_length() == old(self).spec_max_length(),
            final(self).tracker() == spec_tracker_step(old(self).tracker(), *event).0,
            match spec_tracker_step(old(self).tracker(), *event).1 {
                Some(raw) => {
                    let (a, o) = spec_aggregate(old(self).aggregator(), raw);
                    &&& final(self).aggregator() == a
                    &&& r == o is Some
                    &&& final(self).window() == match o {
                        Some(x) => old(self).window().push(x),
                        None => old(self).window(),
                    }
                },
                None => {
                    &&& !r
                    &&& final(self).aggregator() == old(self).aggregator()
                    &&& final(self).window() == old(self).window()
                },
            },
    {
        if let Some(raw_demand) = self.demand_tracker.update(event) {
            if let Some(agg_demand) = self.aggregator.push(raw_demand) {
                self.push_aggregated_demand(agg_demand);
                return true;
            }
        }
        false
    }

    /// Whether `update` can take `event`: the tracker accepts it, and the
    /// aggregator can take the demand it completes.
    pub fn can_update(&self, event: &TraceEvent) -> (r: bool)
        requires
            self.aggregator().wf(),
        ensures
            r == (spec_tracker_accepts(self.tracker(), *event) && (spec_tracker_step(self.tracker(), *event).1 matches Some(raw)
                ==> spec_can_push(self.aggregator(), raw))),
    {
        if !self.demand_tracker.accepts(event) {
            return false;
        }
        let mut t = self.demand_tracker;
        match t.update(event) {
            Some(raw) => self.aggregator.can_push(&raw),
            None => true,
        }
    }

    /// Consumes an event; returns true when a new demand enters the window.
    pub fn update(&mut self, event: &TraceEvent) -> (r: bool)
        requires
            old(self).aggregator().wf(),
            spec_tracker_accepts(old(self).tracker(), *event),
            spec_tracker_step(old(self).tracker(), *event).1 matches Some(raw) ==> spec_can_push(
                old(self).aggregator(),
                raw,
            ),
        ensures
            final(self).aggregator().wf(),
            final(self).spec_horizon() == old(self).spec_horizon(),
            final(self).spec_max_length() == old(self).spec_max_length(),
            final(self).tracker() == spec_tracker_step(old(self).tracker(), *event).0,
            match spec_tracker_step(old(self).tracker(), *event).1 {
                Some(raw) => {
                    let (a, o) = spec_aggregate(old(self).aggregator(), raw);
                    &&& final(self).aggregator() == a
                    &&& r == o is Some
                    &&& final(self).window() == match o {
                        Some(x) => old(self).window().push(x),
                        None => old(self).window(),
                    }
                },
                None => {
                    &&& !r
                    &&& final(self).aggregator() == old(self).aggregator()
                    &&& final(self).window() == old(self).window()
                },
            },
    {
        self.do_update(event)
    }

    /// Drops the oldest demands that arrived at least a horizon before the
    /// last one, keeping at least three.
    pub fn trim(&mut self)
        requires
            forall|i: int| 0 <= i < old(self).window().len() ==> (#[trigger] old(self).window()[i]).arrival
                <= old(self).window().last().arrival,
        ensures
            final(self).tracker() == old(self).tracker(),
            final(self).aggregator() == old(self).aggregator(),
            final(self).spec_horizon() == old(self).spec_horizon(),
            final(self).spec_max_length() == old(self).spec_max_length(),
            final(self).window() == match old(self).spec_horizon() {
                Some(h) => if old(self).window().len() > 0 {
                    old(self).window().skip(
                        trim_count(old(self).window(), old(self).window().last().arrival, h) as int,
                    )
                } else {
                    old(self).window()
                },
                None => old(self).window(),
            },
    {
        let n = self.demands.len();
        if let Some(h) = self.horizon {
            if n > 0 {
                let ghost w = self.demands@;
                let last_arrival = self.demands[n - 1].arrival;
                let mut to_pop: usize = 0;
                let mut elem_nb = n;
                proof {
                    assert(w.skip(0) == w);
                    assert(w.last() == w[n - 1]);
                    assert forall|i: int| 0 <= i < w.len() implies (#[trigger] w[i]).arrival <= last_arrival by {
                        assert(old(self).window()[i] == w[i]);
                    }
                }
                while to_pop < n
                    invariant
                        w == self.demands@,
                        n == w.len(),
                        last_arrival == w.last().arrival,
                        forall|i: int| 0 <= i < w.len() ==> (#[trigger] w[i]).arrival <= last_arrival,
                        0 <= to_pop <= n,
                        elem_nb == n - to_pop,
                        trim_count(w, last_arrival, h) == to_pop + trim_count(w.skip(to_pop as int), last_arrival, h),
                    ensures
                        0 <= to_pop <= n,
                        trim_count(w, last_arrival, h) == to_pop,
                    decreases n - to_pop,
                {
                    let s = self.demands[to_pop];
                    proof {
                        assert(w.skip(to_pop as int)[0] == s);
                        assert(w.skip(to_pop as int).drop_first() == w.skip(to_pop + 1));
                    }
                    if elem_nb <= 3 {
                        break;
                    }
                    if last_arrival - s.arrival < h {
                        break;
                    }
                    elem_nb -= 1;
                    to_pop += 1;
                }
                proof {
                    if to_pop == n {
                        assert(w.skip(n as int).len() == 0);
                    }
                }
                let rest = self.demands.split_off(to_pop);
                self.demands = rest;
            }
        }
    }

    /// Pushes the pending demand of the aggregator into the window; returns
    /// true if there was one.
    pub fn flush(&mut self) -> (r: bool)
        ensures
            r == old(self).aggregator().spec_last() is Some,
            final(self).aggregator() == old(self).aggregator().with_last(None),
            final(self).tracker() == old(self).tracker(),
            final(self).spec_horizon() == old(self).spec_horizon(),
            final(self).spec_max_length() == old(self).spec_max_length(),
            final(self).window() == match old(self).aggregator().spec_last() {
                Some(l) => old(self).window().push(l),
                None => old(self).window(),
            },
    {
        if let Some(d) = self.aggregator.flush() {
            self.push_aggregated_demand(d);
            return true;
        }
        false
    }

    /// True once a granularity is set.
    pub fn is_aggregated(&self) -> (r: bool)
        ensures
            r == (self.aggregator().spec_granularity() is Some),
    {
        self.aggregator.is_active()
    }

    /// The demands of the window, oldest first.
    pub fn demands(&self) -> (r: &[Demand])
        ensures
            r@ == self.window(),
    {
        self.demands.as_slice()
    }
}

pub proof fn lemma_work_sum_nonneg(ds: Seq<Demand>)
    ensures
        work_sum(ds) >= 0,
    decreases ds.len(),
{
    if ds.len() > 0 {
        lemma_work_sum_nonneg(ds.drop_last());
    }
}

proof fn lemma_work_sum_push_bound(ds: Seq<Demand>, l: Option<Demand>)
    ensures
        work_sum(match l {
            Some(x) => ds.push(x),
            None => ds,
        }) == work_sum(ds) + match l {
            Some(x) => x.work as int,
            None => 0,
        },
{
    if let Some(x) = l {
        assert(ds.push(x).drop_last() == ds);
    }
}

/// The sum of a sequence splits at any point.
pub proof fn lemma_work_sum_skip(ds: Seq<Demand>, i: int)
    requires
        0 <= i <= ds.len(),
    ensures
        work_sum(ds) == work_sum(ds.take(i)) + work_sum(ds.skip(i)),
        i < ds.len() ==> work_sum(ds.skip(i)) == ds[i].work + work_sum(ds.skip(i + 1)),
    decreases ds.len() - i,
{
    if i < ds.len() {
        lemma_work_sum_skip(ds, i + 1);
        lemma_work_sum_first(ds.skip(i));
        assert(ds.skip(i).drop_first() == ds.skip(i + 1));
        assert(ds.take(i + 1).drop_last() == ds.take(i));
        assert(ds.take(i + 1).last() == ds[i]);
    } else {
        assert(ds.take(i) == ds);
        assert(ds.skip(i).len() == 0);
    }
}

proof fn lemma_work_sum_first(ds: Seq<Demand>)
    requires
        ds.len() > 0,
    ensures
        work_sum(ds) == ds[0].work + work_sum(ds.drop_first()),
    decreases ds.len(),
{
    if ds.len() > 1 {
        lemma_work_sum_first(ds.drop_last());
        assert(ds.drop_last().drop_first() == ds.drop_first().drop_last());
        assert(ds.drop_first().last() == ds.last());
        assert(ds.drop_last()[0] == ds[0]);
    } else {
        assert(ds.drop_last().len() == 0);
        assert(ds.drop_first().len() == 0);
        reveal_with_fuel(work_sum, 2);
    }
}

/// Where the scan for the place of a step `(d, w)` stops, starting at
/// position `i`: at the first step that dominates it (a smaller delta and at
/// least as much work) or that has no smaller delta; `s.len()` if none does.
pub open spec fn spec_scan(s: Seq<(u64, u64)>, i: int, d: u64, w: u64) -> int
    decreases s.len() - i,
{
    if i < 0 || i >= s.len() {
        s.len() as int
    } else if s[i].0 < d {
        if s[i].1 >= w {
            i
        } else {
            spec_scan(s, i + 1, d, w)
        }
    } else {
        i
    }
}

/// The first position at or after `k` whose step has more work than `w`;
/// `s.len()` if none has.
pub open spec fn spec_first_above(s: Seq<(u64, u64)>, k: int, w: u64) -> int
    decreases s.len() - k,
{
    if k < 0 || k >= s.len() {
        s.len() as int
    } else if s[k].1 > w {
        k
    } else {
        spec_first_above(s, k + 1, w)
    }
}

/// Inserting the step `(d, w)`, scanning from position `p`: the new steps,
/// and the position where the next scan starts.
///
/// A step that dominates `(d, w)` leaves the steps unchanged. Otherwise
/// `(d, w)` goes where the scan stopped (replacing a step of the same delta),
/// and the steps after it that have no more work are dropped.
pub open spec fn spec_insert_step(s: Seq<(u64, u64)>, p: int, d: u64, w: u64) -> (
    Seq<(u64, u64)>,
    int,
) {
    let r = spec_scan(s, p, d, w);
    if r >= s.len() {
        (s.push((d, w)), s.len() as int)
    } else if s[r].0 < d || (s[r].0 == d && s[r].1 >= w) {
        (s, r)
    } else {
        let k = if s[r].0 == d {
            spec_first_above(s, r + 1, w)
        } else {
            spec_first_above(s, r, w)
        };
        (s.take(r) + seq![(d, w)] + s.skip(k), r + 1)
    }
}

proof fn lemma_scan_bounds(s: Seq<(u64, u64)>, i: int, d: u64, w: u64)
    requires
        0 <= i <= s.len(),
    ensures
        i <= spec_scan(s, i, d, w) <= s.len(),
    decreases s.len() - i,
{
    if i < s.len() && s[i].0 < d && s[i].1 < w {
        lemma_scan_bounds(s, i + 1, d, w);
    }
}

proof fn lemma_first_above_bounds(s: Seq<(u64, u64)>, k: int, w: u64)
    requires
        0 <= k <= s.len(),
    ensures
        k <= spec_first_above(s, k, w) <= s.len(),
    decreases s.len() - k,
{
    if k < s.len() && s[k].1 <= w {
        lemma_first_above_bounds(s, k + 1, w);
    }
}


/// The delta of a demand seen from the arrival `last` of the newest one.
pub open spec fn step_delta(last: u64, d: Demand) -> u64 {
    (last - d.arrival + 1) as u64
}

/// Inserting the steps of the demands `w[0..i]`, newest first, scanning on
/// from position `p`: each demand gives a step whose delta spans from it to
/// the newest demand and whose work is that of all demands from it on.
pub open spec fn spec_fold_steps(s: Seq<(u64, u64)>, p: int, w: Seq<Demand>, last: u64, i: int) -> Seq<
    (u64, u64),
>
    decreases i,
{
    if i <= 0 || i > w.len() {
        s
    } else {
        let st = spec_insert_step(s, p, step_delta(last, w[i - 1]), work_sum(w.skip(i - 1)) as u64);
        spec_fold_steps(st.0, st.1, w, last, i - 1)
    }
}

/// The steps after an update with the window `w`.
pub open spec fn spec_update_steps(s: Seq<(u64, u64)>, w: Seq<Demand>) -> Seq<(u64, u64)> {
    if w.len() == 0 {
        s
    } else {
        spec_fold_steps(s, 0, w, w.last().arrival, w.len() as int)
    }
}

/// A window whose steps fit in `u64`: no demand after the newest one, no
/// delta past `u64::MAX`, and a total work that fits.
pub open spec fn window_fits(w: Seq<Demand>) -> bool {
    &&& forall|i: int|
        0 <= i < w.len() ==> (#[trigger] w[i]).arrival <= w.last().arrival && w.last().arrival
            - w[i].arrival < u64::MAX
    &&& work_sum(w) <= u64::MAX
}

/// The exact RBF pairs from position `i` on: the steps up to the horizon
/// `h`; the first step beyond it is replaced by `(h, w)`, with `w` the work
/// of the step before, and ends the pairs. The flag tells whether a step was
/// cut.
pub open spec fn exact_pairs_from(s: Seq<(u64, u64)>, h: u64, i: int, last_work: u64) -> (Seq<
    (u64, u64),
>, bool)
    decreases s.len() - i,
{
    if i < 0 || i >= s.len() {
        (Seq::empty(), false)
    } else if s[i].0 > h {
        (seq![(h, last_work)], true)
    } else {
        let r = exact_pairs_from(s, h, i + 1, s[i].1);
        (seq![s[i]] + r.0, r.1)
    }
}

/// The RBF pairs of aggregated demands from position `i` on: each delta
/// goes with the work of the next step, up to the horizon `h` as above.
pub open spec fn shifted_pairs_from(s: Seq<(u64, u64)>, h: u64, i: int, last_work: u64) -> Seq<
    (u64, u64),
>
    decreases s.len() - i,
{
    if i < 0 || i + 1 >= s.len() {
        Seq::empty()
    } else if s[i].0 > h {
        seq![(h, last_work)]
    } else {
        seq![(s[i].0, s[i + 1].1)] + shifted_pairs_from(s, h, i + 1, s[i + 1].1)
    }
}

/// The steps left once those at the end reaching the horizon `h` are
/// dropped.
pub open spec fn spec_trim_steps(s: Seq<(u64, u64)>, h: u64) -> Seq<(u64, u64)>
    decreases s.len(),
{
    if s.len() > 0 && s.last().0 >= h {
        spec_trim_steps(s.drop_last(), h)
    } else {
        s
    }
}

/// The steps without the last ones, of delta beyond `h`.
pub open spec fn spec_trim_beyond(s: Seq<(u64, u64)>, h: u64) -> Seq<(u64, u64)>
    decreases s.len(),
{
    if s.len() > 0 && s.last().0 > h {
        spec_trim_beyond(s.drop_last(), h)
    } else {
        s
    }
}

/// One merging pass over the steps from position `i` on: a step whose
/// delta is less than `g` past the one of the step before is merged into
/// it, which takes its work, and the pass goes on from the step after the
/// merged one. Second comes the number of merges.
pub open spec fn merge_pass_from(s: Seq<(u64, u64)>, g: u64, i: int) -> (Seq<(u64, u64)>, nat)
    decreases s.len() - i,
{
    if i < 0 || i + 1 >= s.len() {
        (s, 0)
    } else if s[i + 1].0 - s[i].0 < g {
        let r = merge_pass_from(s.update(i, (s[i].0, s[i + 1].1)).remove(i + 1), g, i + 1);
        (r.0, r.1 + 1)
    } else {
        merge_pass_from(s, g, i + 1)
    }
}

proof fn lemma_merge_pass_sorted(s: Seq<(u64, u64)>, g: u64, i: int)
    requires
        deltas_sorted(s),
        0 <= i,
    ensures
        deltas_sorted(merge_pass_from(s, g, i).0),
        merge_pass_from(s, g, i).0.len() + merge_pass_from(s, g, i).1 == s.len(),
    decreases s.len() - i,
{
    if i + 1 < s.len() {
        if s[i + 1].0 - s[i].0 < g {
            let t = s.update(i, (s[i].0, s[i + 1].1)).remove(i + 1);
            assert forall|a: int, b: int| 0 <= a < b < t.len() implies (#[trigger] t[a]).0 <= (
            #[trigger] t[b]).0 by {
                let a0 = if a <= i { a } else { a + 1 };
                let b0 = if b <= i { b } else { b + 1 };
                assert(t[a].0 == s[a0].0);
                assert(t[b].0 == s[b0].0);
            }
            lemma_merge_pass_sorted(t, g, i + 1);
        } else {
            lemma_merge_pass_sorted(s, g, i + 1);
        }
    }
}

/// The works of the steps never decrease.
pub open spec fn works_sorted(s: Seq<(u64, u64)>) -> bool {
    forall|i: int, j: int| 0 <= i < j < s.len() ==> (#[trigger] s[i]).1 <= (#[trigger] s[j]).1
}

/// The cost of merging step `i` into the step before it: their distance
/// times their difference of work, saturated at `u64::MAX`.
pub open spec fn merge_cost(s: Seq<(u64, u64)>, i: int) -> u64 {
    let p = (s[i].0 - s[i - 1].0) * (s[i].1 - s[i - 1].1);
    if p > u64::MAX {
        u64::MAX
    } else {
        p as u64
    }
}

/// Scanning the steps from `i` on, with `best` of cost `best_cost` found so
/// far: the last position of least merge cost.
pub open spec fn cheapest_from(s: Seq<(u64, u64)>, i: int, best: int, best_cost: u64) -> int
    decreases s.len() - i,
{
    if i < 1 || i >= s.len() {
        best
    } else if merge_cost(s, i) <= best_cost {
        cheapest_from(s, i + 1, i, merge_cost(s, i))
    } else {
        cheapest_from(s, i + 1, best, best_cost)
    }
}

/// The steps once the step of least merge cost (the last of them) is
/// merged into the one before it, which takes its work.
pub open spec fn spec_merge_cheapest(s: Seq<(u64, u64)>) -> Seq<(u64, u64)> {
    let m = cheapest_from(s, 1, -1, u64::MAX);
    if 1 <= m < s.len() {
        s.update(m - 1, (s[m - 1].0, s[m].1)).remove(m)
    } else {
        s
    }
}

proof fn lemma_cheapest_from(s: Seq<(u64, u64)>, i: int, best: int, best_cost: u64)
    requires
        1 <= i,
        best == -1 || 1 <= best < i,
        best == -1 ==> best_cost == u64::MAX,
    ensures
        1 <= cheapest_from(s, i, best, best_cost) < s.len() || cheapest_from(s, i, best, best_cost) == best,
        i < s.len() ==> 1 <= cheapest_from(s, i, best, best_cost) < s.len(),
    decreases s.len() - i,
{
    if i < s.len() {
        if merge_cost(s, i) <= best_cost {
            lemma_cheapest_from(s, i + 1, i, merge_cost(s, i));
        } else {
            lemma_cheapest_from(s, i + 1, best, best_cost);
        }
    }
}

/// A delta rounded down to the granularity `g`, counting from 1.
pub open spec fn coarse_delta(d: u64, g: u64) -> u64 {
    ((d - 1) - (d - 1) % (g as int) + 1) as u64
}

/// Coarsening from position `i` on, with the group of delta `cur` and work
/// `work` open: steps of the same rounded delta join the group; a new
/// rounded delta closes it. The last group is kept only if a step joined it.
pub open spec fn coarsen_from(s: Seq<(u64, u64)>, g: u64, i: int, cur: u64, work: u64, merging: bool) -> Seq<
    (u64, u64),
>
    decreases s.len() - i,
{
    if i < 0 || i >= s.len() {
        if merging {
            seq![(cur, work)]
        } else {
            Seq::empty()
        }
    } else {
        let sd = coarse_delta(s[i].0, g);
        if sd == cur {
            coarsen_from(s, g, i + 1, cur, s[i].1, true)
        } else {
            seq![(cur, work)] + coarsen_from(s, g, i + 1, sd, s[i].1, false)
        }
    }
}

/// The steps coarsened to the granularity `g`.
pub open spec fn spec_coarsen(s: Seq<(u64, u64)>, g: u64) -> Seq<(u64, u64)> {
    coarsen_from(s, g, 0, 1, 0, false)
}

/// The steps of an RBF, `(delta, work)` pairs in increasing order of delta.
pub struct RBFSteps {
    steps: IndexList<(u64, u64)>,
}

impl RBFSteps {
    /// The steps, in list order.
    pub closed spec fn items(&self) -> Seq<(u64, u64)> {
        list_items(self.steps)
    }

    /// The slots the step list has allocated.
    pub closed spec fn slots(&self) -> nat {
        list_slots(self.steps)
    }

    /// The handle of each step, in order.
    pub closed spec fn handles(&self) -> Seq<ListIndex> {
        list_handles(self.steps)
    }

    pub closed spec fn wf(&self) -> bool {
        list_wf(self.steps)
    }

    pub fn new() -> (r: Self)
        ensures
            r.wf(),
            r.items() == Seq::<(u64, u64)>::empty(),
            r.slots() == 0,
    {
        Self { steps: list_new() }
    }

    /// Number of steps.
    pub fn len(&self) -> (r: usize)
        ensures
            r == self.items().len(),
    {
        list_len(&self.steps)
    }


    /// Inserts the steps of the demands of `window`, newest first.
    pub fn update(&mut self, window: &[Demand])
        requires
            old(self).wf(),
            old(self).slots() + window@.len() < u32::MAX,
            window_fits(window@),
        ensures
            final(self).wf(),
            final(self).slots() <= old(self).slots() + window@.len(),
            final(self).items() == spec_update_steps(old(self).items(), window@),
    {
        let n = window.len();
        if n == 0 {
            return;
        }
        let ghost w = window@;
        let ghost s0 = self.items();
        let ghost slots0 = self.slots();
        let last_arrival = window[n - 1].arrival;
        let mut work: u64 = 0;
        let mut steps_idx = list_first(&self.steps);
        let ghost mut gp: int = 0;
        let mut i: usize = n;
        proof {
            assert(w.skip(n as int).len() == 0);
        }
        while i > 0
            invariant
                w == window@,
                n == w.len(),
                window_fits(w),
                last_arrival == w.last().arrival,
                0 <= i <= n,
                self.wf(),
                self.slots() <= slots0 + (n - i),
                slots0 + n < u32::MAX,
                0 <= gp <= self.items().len(),
                steps_idx == handle_at(self.steps, gp),
                work == work_sum(w.skip(i as int)),
                spec_update_steps(s0, w) == spec_fold_steps(self.items(), gp, w, last_arrival, i as int),
            decreases i,
        {
            let d = window[i - 1];
            proof {
                assert(w[i - 1].arrival <= w.last().arrival);
                lemma_work_sum_skip(w, i - 1);
                lemma_work_sum_skip(w, 0);
                lemma_work_sum_nonneg(w.take(i - 1));
                assert(w.skip(0) == w);
            }
            let delta = last_arrival - d.arrival + 1;
            work = work + d.work;
            let ghost before = self.items();
            steps_idx = self.insert_step(steps_idx, delta, work, Ghost(gp));
            proof {
                gp = spec_insert_step(before, gp, delta, work).1;
            }
            i -= 1;
        }
    }

    /// Appends the RBF pairs of the steps, cut at the horizon: exact pairs,
    /// or, when `shifted`, the pairs of aggregated demands.
    pub fn step_pairs(&self, ret: &mut Vec<(u64, u64)>, shifted: bool, horizon: Option<u64>)
        requires
            self.wf(),
            !shifted && !exact_pairs_from(self.items(), horizon.unwrap_or(u64::MAX), 0, 0).1 && (old(
                ret,
            )@ + exact_pairs_from(self.items(), horizon.unwrap_or(u64::MAX), 0, 0).0).len() == 1
                ==> (old(ret)@ + exact_pairs_from(self.items(), horizon.unwrap_or(u64::MAX), 0, 0).0)[0].1
                < u64::MAX,
        ensures
            shifted ==> final(ret)@ == old(ret)@ + shifted_pairs_from(
                self.items(),
                horizon.unwrap_or(u64::MAX),
                0,
                0,
            ),
            !shifted ==> ({
                let e = exact_pairs_from(self.items(), horizon.unwrap_or(u64::MAX), 0, 0);
                let out = old(ret)@ + e.0;
                final(ret)@ == if !e.1 && out.len() == 1 {
                    out.push(((1 + out[0].1) as u64, out[0].1))
                } else {
                    out
                }
            }),
    {
        if shifted {
            return self.step_pair_aggregated(ret, horizon);
        }
        self.step_pair_exact(ret, horizon)
    }

    fn step_pair_aggregated(&self, ret: &mut Vec<(u64, u64)>, horizon: Option<u64>)
        requires
            self.wf(),
        ensures
            final(ret)@ == old(ret)@ + shifted_pairs_from(
                self.items(),
                horizon.unwrap_or(u64::MAX),
                0,
                0,
            ),
    {
        let ghost s = self.items();
        let ghost r0 = ret@;
        let n = list_len(&self.steps);
        if n < 2 {
            proof {
                assert(shifted_pairs_from(s, horizon.unwrap_or(u64::MAX), 0, 0) == Seq::<(u64, u64)>::empty());
                assert(ret@ == r0 + Seq::<(u64, u64)>::empty());
            }
            return;
        }
        let h = match horizon {
            Some(h) => h,
            None => u64::MAX,
        };
        let mut last_work: u64 = 0;
        let mut idx = list_first(&self.steps);
        let mut k: usize = 0;
        while k + 1 < n
            invariant
                self.wf(),
                s == self.items(),
                n == s.len(),
                n >= 2,
                0 <= k < n,
                idx == handle_at(self.steps, k as int),
                h == horizon.unwrap_or(u64::MAX),
                r0 == old(ret)@,
                r0 + shifted_pairs_from(s, h, 0, 0) == ret@ + shifted_pairs_from(s, h, k as int, last_work),
            decreases n - k,
        {
            let h1 = idx.unwrap();
            proof {
                assert(list_handles(self.steps)[k as int] == h1);
            }
            let s1 = list_get(&self.steps, h1).unwrap();
            let nx = list_next(&self.steps, h1);
            let h2 = nx.unwrap();
            proof {
                assert(list_handles(self.steps)[k + 1] == h2);
            }
            let s2 = list_get(&self.steps, h2).unwrap();
            if s1.0 > h {
                let ghost before = ret@;
                ret.push((h, last_work));
                proof {
                    assert(shifted_pairs_from(s, h, k as int, last_work) == seq![(h, last_work)]);
                    assert(ret@ == before + seq![(h, last_work)]);
                }
                return;
            }
            proof {
                assert(shifted_pairs_from(s, h, k as int, last_work) == seq![(s1.0, s2.1)]
                    + shifted_pairs_from(s, h, k + 1, s2.1));
            }
            last_work = s2.1;
            ret.push((s1.0, s2.1));
            idx = nx;
            k += 1;
        }
        proof {
            assert(shifted_pairs_from(s, h, k as int, last_work) == Seq::<(u64, u64)>::empty());
            assert(ret@ + Seq::<(u64, u64)>::empty() == ret@);
        }
    }

    fn step_pair_exact(&self, ret: &mut Vec<(u64, u64)>, horizon: Option<u64>)
        requires
            self.wf(),
            !exact_pairs_from(self.items(), horizon.unwrap_or(u64::MAX), 0, 0).1 && (old(ret)@
                + exact_pairs_from(self.items(), horizon.unwrap_or(u64::MAX), 0, 0).0).len() == 1
                ==> (old(ret)@ + exact_pairs_from(self.items(), horizon.unwrap_or(u64::MAX), 0, 0).0)[0].1
                < u64::MAX,
        ensures
            ({
                let e = exact_pairs_from(self.items(), horizon.unwrap_or(u64::MAX), 0, 0);
                let out = old(ret)@ + e.0;
                final(ret)@ == if !e.1 && out.len() == 1 {
                    out.push(((1 + out[0].1) as u64, out[0].1))
                } else {
                    out
                }
            }),
    {
        let ghost s = self.items();
        let ghost r0 = ret@;
        let n = list_len(&self.steps);
        let h = match horizon {
            Some(h) => h,
            None => u64::MAX,
        };
        let mut last_work: u64 = 0;
        let mut idx = list_first(&self.steps);
        let mut k: usize = 0;
        while k < n
            invariant
                self.wf(),
                s == self.items(),
                n == s.len(),
                0 <= k <= n,
                idx == handle_at(self.steps, k as int),
                h == horizon.unwrap_or(u64::MAX),
                r0 == old(ret)@,
                r0 + exact_pairs_from(s, h, 0, 0).0 == ret@ + exact_pairs_from(s, h, k as int, last_work).0,
                exact_pairs_from(s, h, 0, 0).1 == exact_pairs_from(s, h, k as int, last_work).1,
            decreases n - k,
        {
            let h1 = idx.unwrap();
            proof {
                assert(list_handles(self.steps)[k as int] == h1);
            }
            let st = list_get(&self.steps, h1).unwrap();
            if st.0 > h {
                let ghost before = ret@;
                ret.push((h, last_work));
                proof {
                    assert(exact_pairs_from(s, h, k as int, last_work).0 == seq![(h, last_work)]);
                    assert(ret@ == before + seq![(h, last_work)]);
                }
                return;
            }
            proof {
                let r = exact_pairs_from(s, h, k + 1, st.1);
                assert(exact_pairs_from(s, h, k as int, last_work).0 == seq![st] + r.0);
            }
            last_work = st.1;
            ret.push(st);
            idx = list_next(&self.steps, h1);
            k += 1;
        }
        proof {
            assert(ret@ + exact_pairs_from(s, h, k as int, last_work).0 == ret@);
        }
        if ret.len() == 1 {
            let w0 = ret[0].1;
            ret.push((1 + w0, w0));
        }
    }


    /// Drops the steps at the end whose delta reaches the horizon, if any.
    pub fn do_trim_steps(&mut self, horizon: Option<u64>)
        requires
            old(self).wf(),
        ensures
            final(self).wf(),
            final(self).slots() == old(self).slots(),
            final(self).items() == match horizon {
                Some(h) => spec_trim_steps(old(self).items(), h),
                None => old(self).items(),
            },
    {
        if let Some(h) = horizon {
            let ghost s0 = self.items();
            loop
                invariant
                    self.wf(),
                    self.slots() == old(self).slots(),
                    spec_trim_steps(s0, h) == spec_trim_steps(self.items(), h),
                ensures
                    self.wf(),
                    self.slots() == old(self).slots(),
                    spec_trim_steps(s0, h) == self.items(),
                decreases self.items().len(),
            {
                match list_last(&self.steps) {
                    Some(st) => {
                        if st.0 < h {
                            break;
                        }
                        list_remove_last(&mut self.steps);
                    },
                    None => {
                        break;
                    },
                }
            }
        }
    }

    /// The steps, in order.
    pub fn items_vec(&self) -> (r: Vec<(u64, u64)>)
        requires
            self.wf(),
        ensures
            r@ == self.items(),
    {
        let ghost s = self.items();
        let n = list_len(&self.steps);
        let mut ret: Vec<(u64, u64)> = Vec::new();
        let mut idx = list_first(&self.steps);
        let mut k: usize = 0;
        while k < n
            invariant
                self.wf(),
                s == self.items(),
                n == s.len(),
                0 <= k <= n,
                idx == handle_at(self.steps, k as int),
                ret@ == s.take(k as int),
            decreases n - k,
        {
            let h1 = idx.unwrap();
            proof {
                assert(list_handles(self.steps)[k as int] == h1);
            }
            let st = list_get(&self.steps, h1).unwrap();
            ret.push(st);
            idx = list_next(&self.steps, h1);
            k += 1;
            proof {
                assert(ret@ =~= s.take(k as int));
            }
        }
        proof {
            assert(s.take(n as int) =~= s);
        }
        ret
    }

    /// The cost of merging the step of handle `index` into the step before
    /// it; `None` for the first step.
    pub fn cost_li(&self, index: ListIndex) -> (r: Option<u64>)
        requires
            self.wf(),
            self.handles().contains(index),
            deltas_sorted(self.items()),
            works_sorted(self.items()),
        ensures
            forall|i: int|
                0 <= i < self.items().len() && #[trigger] self.handles()[i] == index ==> r == if i
                    == 0 {
                    None
                } else {
                    Some(merge_cost(self.items(), i))
                },
    {
        let ghost hs = list_handles(self.steps);
        let ghost s = self.items();
        let ghost i = choose|i: int| 0 <= i < hs.len() && hs[i] == index;
        let curr = match list_get(&self.steps, index) {
            Some(c) => c,
            None => {
                return None;
            },
        };
        let prev_index = match list_prev(&self.steps, index) {
            Some(p) => p,
            None => {
                proof {
                    assert forall|k: int| 0 <= k < s.len() && #[trigger] hs[k] == index implies k == 0 by {
                        assert(k == i);
                    }
                }
                return None;
            },
        };
        proof {
            assert(hs[i - 1] == prev_index);
        }
        let prev = list_get(&self.steps, prev_index).unwrap();
        proof {
            assert(s[i - 1].0 <= s[i].0 && s[i - 1].1 <= s[i].1);
            assert forall|k: int| 0 <= k < s.len() && #[trigger] hs[k] == index implies k == i by {}
        }
        let dist = curr.0 - prev.0;
        let work = curr.1 - prev.1;
        let cost = match dist.checked_mul(work) {
            Some(c) => c,
            None => u64::MAX,
        };
        Some(cost)
    }

    /// Merges the step of least merge cost (the last of them) into the step
    /// before it, which takes its work.
    pub fn compress_1(&mut self)
        requires
            old(self).wf(),
            deltas_sorted(old(self).items()),
            works_sorted(old(self).items()),
        ensures
            final(self).wf(),
            final(self).slots() == old(self).slots(),
            final(self).items() == spec_merge_cheapest(old(self).items()),
    {
        let ghost s = self.items();
        let ghost hs = list_handles(self.steps);
        let n = list_len(&self.steps);
        let mut min_cost: u64 = u64::MAX;
        let mut min_cost_index: Option<ListIndex> = None;
        let ghost mut gbest: int = -1;
        if n < 2 {
            proof {
                reveal_with_fuel(cheapest_from, 2);
            }
            return;
        }
        let first = list_first(&self.steps).unwrap();
        proof {
            assert(hs[0] == first);
        }
        let mut pos = list_next(&self.steps, first);
        let mut k: usize = 1;
        while k < n
            invariant
                self.wf(),
                s == self.items(),
                hs == list_handles(self.steps),
                n == s.len(),
                n >= 2,
                1 <= k <= n,
                pos == handle_at(self.steps, k as int),
                deltas_sorted(s),
                works_sorted(s),
                gbest == -1 || 1 <= gbest < k,
                gbest == -1 <==> min_cost_index is None,
                gbest != -1 ==> min_cost_index == Some(hs[gbest]),
                gbest == -1 ==> min_cost == u64::MAX,
                cheapest_from(s, 1, -1, u64::MAX) == cheapest_from(s, k as int, gbest, min_cost),
            decreases n - k,
        {
            let p = pos.unwrap();
            proof {
                assert(hs[k as int] == p);
                assert(self.handles()[k as int] == p);
            }
            let cost = self.cost_li(p).unwrap();
            if cost <= min_cost {
                min_cost_index = Some(p);
                min_cost = cost;
                proof {
                    gbest = k as int;
                }
            }
            pos = list_next(&self.steps, p);
            k += 1;
        }
        proof {
            lemma_cheapest_from(s, 1, -1, u64::MAX);
        }
        if let Some(min_idx) = min_cost_index {
            let ghost m = gbest;
            let st = list_get(&self.steps, min_idx).unwrap();
            let work = st.1;
            let prev_index = list_prev(&self.steps, min_idx).unwrap();
            proof {
                assert(hs[m - 1] == prev_index);
                assert(hs[m] == min_idx);
            }
            list_remove(&mut self.steps, min_idx);
            proof {
                assert(list_handles(self.steps)[m - 1] == prev_index);
            }
            let pv = list_get(&self.steps, prev_index).unwrap();
            list_set(&mut self.steps, prev_index, (pv.0, work));
            proof {
                assert(self.items() =~= s.update(m - 1, (s[m - 1].0, s[m].1)).remove(m));
            }
        }
    }

    /// Drops the last steps while their delta is beyond `horizon`.
    pub fn trim_beyond(&mut self, horizon: u64)
        requires
            old(self).wf(),
        ensures
            final(self).wf(),
            final(self).slots() == old(self).slots(),
            final(self).items() == spec_trim_beyond(old(self).items(), horizon),
    {
        let ghost s0 = self.items();
        loop
            invariant
                self.wf(),
                self.slots() == old(self).slots(),
                spec_trim_beyond(s0, horizon) == spec_trim_beyond(self.items(), horizon),
            ensures
                self.wf(),
                self.slots() == old(self).slots(),
                spec_trim_beyond(s0, horizon) == self.items(),
            decreases self.items().len(),
        {
            match list_last(&self.steps) {
                Some(st) => {
                    if st.0 <= horizon {
                        break;
                    }
                    list_remove_last(&mut self.steps);
                },
                None => {
                    break;
                },
            }
        }
    }

    /// One merging pass: a step whose delta is less than
    /// `time_granularity` past the one of the step before is merged into
    /// it. Returns the number of merges. (`work_granularity` takes no part:
    /// the test on it compares it with itself.)
    pub fn merge_close_steps(&mut self, time_granularity: u64, work_granularity: u64) -> (r: usize)
        requires
            old(self).wf(),
            deltas_sorted(old(self).items()),
        ensures
            final(self).wf(),
            final(self).slots() == old(self).slots(),
            final(self).items() == merge_pass_from(old(self).items(), time_granularity, 0).0,
            r == merge_pass_from(old(self).items(), time_granularity, 0).1,
            deltas_sorted(final(self).items()),
    {
        let ghost s0 = self.items();
        proof {
            lemma_merge_pass_sorted(s0, time_granularity, 0);
        }
        let n = list_len(&self.steps);
        let mut ret: usize = 0;
        let mut pos = list_first(&self.steps);
        let ghost mut gi: int = 0;
        loop
            invariant
                self.wf(),
                self.slots() == old(self).slots(),
                deltas_sorted(self.items()),
                0 <= gi,
                gi <= self.items().len(),
                pos == handle_at(self.steps, gi),
                ret + self.items().len() == s0.len(),
                s0.len() == n,
                merge_pass_from(s0, time_granularity, 0).0 == merge_pass_from(self.items(), time_granularity, gi).0,
                merge_pass_from(s0, time_granularity, 0).1 == merge_pass_from(self.items(), time_granularity, gi).1
                    + ret,
            ensures
                self.wf(),
                self.slots() == old(self).slots(),
                self.items() == merge_pass_from(s0, time_granularity, 0).0,
                ret == merge_pass_from(s0, time_granularity, 0).1,
            decreases self.items().len() - gi,
        {
            let ph = match pos {
                Some(h) => h,
                None => {
                    break;
                },
            };
            let ghost s = self.items();
            let ghost hs = list_handles(self.steps);
            assert(hs[gi] == ph);
            let next = list_next(&self.steps, ph);
            let nh = match next {
                Some(h) => h,
                None => {
                    break;
                },
            };
            assert(hs[gi + 1] == nh);
            let d_pos = list_get(&self.steps, ph).unwrap();
            let d_next = list_get(&self.steps, nh).unwrap();
            assert(s[gi].0 <= s[gi + 1].0);
            let time_delta = d_next.0 - d_pos.0;
            if (time_delta < time_granularity) || (work_granularity < work_granularity) {
                list_set(&mut self.steps, ph, (d_pos.0, d_next.1));
                proof {
                    assert(list_handles(self.steps)[gi + 1] == nh);
                }
                list_remove(&mut self.steps, nh);
                ret += 1;
                proof {
                    let t = s.update(gi, (s[gi].0, s[gi + 1].1)).remove(gi + 1);
                    assert(self.items() == t);
                    lemma_merge_pass_sorted(s, time_granularity, gi);
                    assert forall|a: int, b: int| 0 <= a < b < t.len() implies (#[trigger] t[a]).0 <= (
                    #[trigger] t[b]).0 by {
                        let a0 = if a <= gi { a } else { a + 1 };
                        let b0 = if b <= gi { b } else { b + 1 };
                        assert(t[a].0 == s[a0].0);
                        assert(t[b].0 == s[b0].0);
                    }
                    assert(list_handles(self.steps)[gi] == ph);
                }
            }
            pos = list_next(&self.steps, ph);
            proof {
                assert(list_handles(self.steps)[gi] == ph);
                gi = gi + 1;
            }
        }
        ret
    }

    /// Rounds the deltas down to the granularity `g` and merges the steps
    /// of equal rounded delta.
    fn coarsen(&mut self, time_granularity: u64) -> (r: usize)
        requires
            old(self).wf(),
            time_granularity > 0,
            old(self).items().len() < u32::MAX,
            forall|i: int| 0 <= i < old(self).items().len() ==> (#[trigger] old(self).items()[i]).0 >= 1,
        ensures
            final(self).wf(),
            final(self).slots() <= old(self).items().len() + 1,
            final(self).items() == spec_coarsen(old(self).items(), time_granularity),
            r == 0,
    {
        let ghost s = self.items();
        let n = list_len(&self.steps);
        let mut new_steps = list_new();
        let mut current_delta: u64 = 1;
        let mut work: u64 = 0;
        let mut merging = false;
        let mut idx = list_first(&self.steps);
        let mut k: usize = 0;
        while k < n
            invariant
                self.wf(),
                s == self.items(),
                n == s.len(),
                n < u32::MAX,
                time_granularity > 0,
                forall|i: int| 0 <= i < s.len() ==> (#[trigger] s[i]).0 >= 1,
                0 <= k <= n,
                idx == handle_at(self.steps, k as int),
                list_wf(new_steps),
                list_slots(new_steps) <= k,
                spec_coarsen(s, time_granularity) == list_items(new_steps) + coarsen_from(
                    s,
                    time_granularity,
                    k as int,
                    current_delta,
                    work,
                    merging,
                ),
            decreases n - k,
        {
            let h1 = idx.unwrap();
            proof {
                assert(list_handles(self.steps)[k as int] == h1);
            }
            let step = list_get(&self.steps, h1).unwrap();
            proof {
                assert(step == s[k as int]);
            }
            let mut s_delta = step.0 - 1;
            proof {
                let x = s_delta;
                let g = time_granularity;
                assert(x % g <= x) by (nonlinear_arith)
                    requires
                        g > 0,
                ;
            }
            s_delta -= s_delta % time_granularity;
            s_delta += 1;
            let ghost items = list_items(new_steps);
            if s_delta == current_delta {
                merging = true;
                work = step.1;
            } else {
                merging = false;
                list_insert_last(&mut new_steps, (current_delta, work));
                proof {
                    assert(list_items(new_steps) + coarsen_from(s, time_granularity, k + 1, s_delta, step.1, false)
                        =~= items + (seq![(current_delta, work)] + coarsen_from(s, time_granularity, k + 1, s_delta, step.1, false)));
                }
                current_delta = s_delta;
                work = step.1;
            }
            idx = list_next(&self.steps, h1);
            k += 1;
        }
        if merging {
            list_insert_last(&mut new_steps, (current_delta, work));
        }
        proof {
            assert(list_items(new_steps) =~= spec_coarsen(s, time_granularity));
        }
        self.steps = new_steps;
        0
    }

    /// Inserts the step `(delta, work)`, scanning from `index`, the handle
    /// of position `p`. Returns the handle where the next scan starts.
    fn insert_step(&mut self, index: Option<ListIndex>, delta: u64, work: u64, Ghost(p): Ghost<int>) -> (r:
        Option<ListIndex>)
        requires
            old(self).wf(),
            old(self).slots() < u32::MAX,
            0 <= p <= old(self).items().len(),
            index == handle_at(old(self).steps, p),
        ensures
            final(self).wf(),
            final(self).slots() <= old(self).slots() + 1,
            final(self).items() == spec_insert_step(old(self).items(), p, delta, work).0,
            r == handle_at(final(self).steps, spec_insert_step(old(self).items(), p, delta, work).1),
            0 <= spec_insert_step(old(self).items(), p, delta, work).1 <= final(self).items().len(),
    {
        let ghost s = list_items(self.steps);
        let ghost hs = list_handles(self.steps);
        let ghost slots0 = list_slots(self.steps);
        proof {
            lemma_scan_bounds(s, p, delta, work);
        }
        let mut pos = index;
        let ghost mut gp: int = p;
        let mut same_delta = false;
        loop
            invariant_except_break
                list_items(self.steps) == s,
                list_handles(self.steps) == hs,
                list_slots(self.steps) == slots0,
                list_wf(self.steps),
                0 <= p <= gp <= s.len(),
                pos == handle_at(self.steps, gp),
                spec_scan(s, p, delta, work) == spec_scan(s, gp, delta, work),
                !same_delta,
            ensures
                list_items(self.steps) == s,
                list_handles(self.steps) == hs,
                list_slots(self.steps) == slots0,
                list_wf(self.steps),
                gp == spec_scan(s, p, delta, work),
                pos == handle_at(self.steps, gp),
                gp < s.len() ==> s[gp].0 >= delta,
                same_delta == (gp < s.len() && s[gp].0 == delta),
            decreases s.len() - gp,
        {
            match pos {
                None => {
                    proof {
                        assert(gp == s.len());
                    }
                    break;
                },
                Some(h) => {
                    proof {
                        assert(list_handles(self.steps)[gp] == h);
                    }
                    let st = list_get(&self.steps, h).unwrap();
                    if st.0 < delta {
                        if st.1 >= work {
                            return pos;
                        }
                    } else {
                        if st.0 == delta {
                            same_delta = true;
                        }
                        break;
                    }
                    pos = list_next(&self.steps, h);
                    proof {
                        gp = gp + 1;
                    }
                },
            }
        }
        match pos {
            None => {
                let h = list_insert_last(&mut self.steps, (delta, work));
                Some(h)
            },
            Some(h) => {
                proof {
                    assert(hs[gp] == h);
                }
                let ghost k0: int;
                let mut cur: Option<ListIndex>;
                if same_delta {
                    let st = list_get(&self.steps, h).unwrap();
                    if st.1 >= work {
                        return pos;
                    }
                    list_set(&mut self.steps, h, (delta, work));
                    cur = list_next(&self.steps, h);
                    proof {
                        k0 = gp + 1;
                        assert(list_items(self.steps) =~= s.take(gp) + seq![(delta, work)] + s.skip(k0));
                    }
                } else {
                    list_insert_before(&mut self.steps, h, (delta, work));
                    cur = pos;
                    proof {
                        k0 = gp;
                        assert(list_items(self.steps) =~= s.take(gp) + seq![(delta, work)] + s.skip(k0));
                        assert(list_handles(self.steps)[gp + 1] == h);
                    }
                }
                let ghost mut k: int = k0;
                proof {
                    lemma_first_above_bounds(s, k0, work);
                }
                loop
                    invariant_except_break
                        list_wf(self.steps),
                        list_slots(self.steps) <= slots0 + 1,
                        0 <= gp < s.len(),
                        gp <= k0 <= gp + 1,
                        k0 <= k <= s.len(),
                        spec_first_above(s, k0, work) == spec_first_above(s, k, work),
                        list_items(self.steps) == s.take(gp) + seq![(delta, work)] + s.skip(k),
                        cur == handle_at(self.steps, gp + 1),
                    ensures
                        list_wf(self.steps),
                        list_slots(self.steps) <= slots0 + 1,
                        k == spec_first_above(s, k0, work),
                        list_items(self.steps) == s.take(gp) + seq![(delta, work)] + s.skip(k),
                        cur == handle_at(self.steps, gp + 1),
                    decreases s.len() - k,
                {
                    match cur {
                        None => {
                            proof {
                                assert(list_items(self.steps).len() == gp + 1 + (s.len() - k));
                                assert(k == s.len());
                            }
                            break;
                        },
                        Some(h2) => {
                            let ghost items = list_items(self.steps);
                            proof {
                                assert(items.len() == gp + 1 + (s.len() - k));
                                assert(list_handles(self.steps)[gp + 1] == h2);
                                assert(items[gp + 1] == s[k]);
                            }
                            let st = list_get(&self.steps, h2).unwrap();
                            if st.1 > work {
                                break;
                            }
                            let next = list_next(&self.steps, h2);
                            list_remove(&mut self.steps, h2);
                            cur = next;
                            proof {
                                assert(list_items(self.steps) =~= s.take(gp) + seq![(delta, work)] + s.skip(k + 1));
                                k = k + 1;
                            }
                        },
                    }
                }
                cur
            },
        }
    }
}

/// Every step has a delta of at least one.
pub open spec fn deltas_positive(s: Seq<(u64, u64)>) -> bool {
    forall|i: int| 0 <= i < s.len() ==> (#[trigger] s[i]).0 >= 1
}

proof fn lemma_scan_in_range(s: Seq<(u64, u64)>, i: int, d: u64, w: u64)
    ensures
        0 <= spec_scan(s, i, d, w) <= s.len(),
        0 <= i ==> i <= spec_scan(s, i, d, w) || spec_scan(s, i, d, w) == s.len(),
    decreases s.len() - i,
{
    if 0 <= i < s.len() && s[i].0 < d && s[i].1 < w {
        lemma_scan_in_range(s, i + 1, d, w);
    }
}

proof fn lemma_insert_positive(s: Seq<(u64, u64)>, p: int, d: u64, w: u64)
    requires
        deltas_positive(s),
        d >= 1,
    ensures
        deltas_positive(spec_insert_step(s, p, d, w).0),
{
    lemma_scan_in_range(s, p, d, w);
    let r = spec_scan(s, p, d, w);
    if r < s.len() && !(s[r].0 < d || (s[r].0 == d && s[r].1 >= w)) {
        lemma_first_above_bounds(s, r, w);
        lemma_first_above_bounds(s, r + 1, w);
        let k = if s[r].0 == d {
            spec_first_above(s, r + 1, w)
        } else {
            spec_first_above(s, r, w)
        };
        let t = s.take(r) + seq![(d, w)] + s.skip(k);
        assert forall|i: int| 0 <= i < t.len() implies (#[trigger] t[i]).0 >= 1 by {
            if i < r {
                assert(t[i] == s[i]);
            } else if i > r {
                assert(t[i] == s[k + i - r - 1]);
            }
        }
    }
}

proof fn lemma_fold_positive(s: Seq<(u64, u64)>, p: int, w: Seq<Demand>, last: u64, i: int)
    requires
        deltas_positive(s),
        i <= w.len(),
        forall|j: int| 0 <= j < i ==> (#[trigger] w[j]).arrival <= last && last - w[j].arrival < u64::MAX,
    ensures
        deltas_positive(spec_fold_steps(s, p, w, last, i)),
    decreases i,
{
    if 0 < i <= w.len() {
        let d = step_delta(last, w[i - 1]);
        assert(w[i - 1].arrival <= last);
        lemma_insert_positive(s, p, d, work_sum(w.skip(i - 1)) as u64);
        let st = spec_insert_step(s, p, d, work_sum(w.skip(i - 1)) as u64);
        lemma_fold_positive(st.0, st.1, w, last, i - 1);
    }
}

proof fn lemma_update_positive(s: Seq<(u64, u64)>, w: Seq<Demand>)
    requires
        deltas_positive(s),
        window_fits(w),
    ensures
        deltas_positive(spec_update_steps(s, w)),
{
    if w.len() > 0 {
        assert forall|j: int| 0 <= j < w.len() implies (#[trigger] w[j]).arrival <= w.last().arrival
            && w.last().arrival - w[j].arrival < u64::MAX by {}
        lemma_fold_positive(s, 0, w, w.last().arrival, w.len() as int);
    }
}

proof fn lemma_trim_prefix(s: Seq<(u64, u64)>, h: u64)
    ensures
        spec_trim_steps(s, h).len() <= s.len(),
        forall|i: int| 0 <= i < spec_trim_steps(s, h).len() ==> #[trigger] spec_trim_steps(s, h)[i] == s[i],
    decreases s.len(),
{
    if s.len() > 0 && s.last().0 >= h {
        lemma_trim_prefix(s.drop_last(), h);
    }
}

proof fn lemma_coarsen_positive(s: Seq<(u64, u64)>, g: u64, i: int, cur: u64, work: u64, merging: bool)
    requires
        cur >= 1,
        g > 0,
        deltas_positive(s),
    ensures
        deltas_positive(coarsen_from(s, g, i, cur, work, merging)),
    decreases s.len() - i,
{
    if 0 <= i < s.len() {
        let sd = coarse_delta(s[i].0, g);
        let x = (s[i].0 - 1) as int;
        assert(x % (g as int) <= x) by (nonlinear_arith)
            requires
                g > 0,
                x >= 0,
        ;
        if sd == cur {
            lemma_coarsen_positive(s, g, i + 1, cur, s[i].1, true);
        } else {
            lemma_coarsen_positive(s, g, i + 1, sd, s[i].1, false);
            let t = coarsen_from(s, g, i + 1, sd, s[i].1, false);
            let u = seq![(cur, work)] + t;
            assert forall|j: int| 0 <= j < u.len() implies (#[trigger] u[j]).0 >= 1 by {
                if j > 0 {
                    assert(u[j] == t[j - 1]);
                }
            }
        }
    }
}

proof fn lemma_aggregate_all_granularity(agg: DemandAggregator, ds: Seq<Demand>)
    ensures
        spec_aggregate_all(agg, ds).0.spec_granularity() == agg.spec_granularity(),
        agg.wf() ==> spec_aggregate_all(agg, ds).0.wf(),
    decreases ds.len(),
{
    if ds.len() > 0 {
        lemma_aggregate_all_granularity(agg, ds.drop_last());
    }
}

/// The window left once the demands that arrived a horizon before the
/// newest one are dropped, keeping at least three.
pub open spec fn spec_trim_window(w: Seq<Demand>, horizon: Option<u64>) -> Seq<Demand> {
    match horizon {
        Some(h) => if w.len() > 0 {
            w.skip(trim_count(w, w.last().arrival, h) as int)
        } else {
            w
        },
        None => w,
    }
}

/// The window an RBF extractor keeps after a new demand, with a horizon
/// `h`: a suffix of the window from which only demands at least `h` older
/// than the newest one were dropped, never leaving fewer than three.
pub proof fn law_trim_window_keeps_recent(w: Seq<Demand>, h: u64)
    requires
        w.len() > 0,
    ensures
        spec_trim_window(w, Some(h)).len() <= w.len(),
        spec_trim_window(w, Some(h)) == w.skip(w.len() - spec_trim_window(w, Some(h)).len()),
        forall|i: int|
            0 <= i < w.len() && w.last().arrival - (#[trigger] w[i]).arrival < h ==> i >= w.len()
                - spec_trim_window(w, Some(h)).len(),
        w.len() > 3 ==> spec_trim_window(w, Some(h)).len() >= 3,
        w.len() <= 3 ==> spec_trim_window(w, Some(h)) == w,
{
    law_trim_keeps_recent(w, spec_trim_window(w, Some(h)), h);
}

/// Extracts an RBF from the scheduling events of a thread: the events give
/// demands, the demands a window, and the window the steps.
pub struct RbfExtractor {
    demand_window: DemandWindow,
    horizon: Option<u64>,
    rbf_steps: RBFSteps,
    enabled: bool,
}

impl RbfExtractor {
    pub closed spec fn window(&self) -> DemandWindow {
        self.demand_window
    }

    pub closed spec fn steps(&self) -> Seq<(u64, u64)> {
        self.rbf_steps.items()
    }

    pub closed spec fn slots(&self) -> nat {
        self.rbf_steps.slots()
    }

    pub closed spec fn spec_horizon(&self) -> Option<u64> {
        self.horizon
    }

    pub closed spec fn spec_enabled(&self) -> bool {
        self.enabled
    }

    pub closed spec fn wf(&self) -> bool {
        &&& self.rbf_steps.wf()
        &&& deltas_positive(self.rbf_steps.items())
        &&& self.demand_window.aggregator().wf()
        &&& self.demand_window.spec_horizon() == self.horizon
    }

    /// The granularity set when the window grows too long.
    pub open spec fn spec_coarse_granularity(&self) -> u64 {
        self.window().spec_new_granularity() as u64
    }

    /// The window `w1`, with the aggregator `a`, once it went through a
    /// granularity increase if it is too long; and the steps then.
    pub open spec fn spec_regrain(&self, w1: Seq<Demand>, a: DemandAggregator) -> (DemandAggregator, Seq<Demand>, Seq<(u64, u64)>) {
        let steps1 = spec_update_steps(self.steps(), w1);
        if w1.len() > self.window().spec_max_length() && a.spec_granularity() is None {
            let flushed = match a.spec_last() {
                Some(l) => w1.push(l),
                None => w1,
            };
            let start = DemandAggregator::spec_with(None, Some(self.spec_coarse_granularity()));
            let (a2, w2) = spec_aggregate_all(start, flushed);
            (a2, w2, spec_update_steps(spec_coarsen(steps1, self.spec_coarse_granularity()), w2))
        } else {
            (a, w1, steps1)
        }
    }

    /// A new demand enters the window, leaving it `w1` with aggregator `a`,
    /// and nothing overflows.
    pub open spec fn spec_can_grow(&self, w1: Seq<Demand>, a: DemandAggregator) -> bool {
        let steps1 = spec_update_steps(self.steps(), w1);
        &&& self.slots() + w1.len() < u32::MAX
        &&& window_fits(w1)
        &&& w1.len() > self.window().spec_max_length() && a.spec_granularity() is None ==> {
            let w2 = self.spec_regrain(w1, a).1;
            &&& self.window().spec_max_length() > 0
            &&& self.window().spec_new_granularity() > 0
            &&& work_sum(w1) + match a.spec_last() {
                Some(l) => l.work as int,
                None => 0,
            } <= u64::MAX
            &&& steps1.len() + 1 + w2.len() < u32::MAX
            &&& window_fits(w2)
        }
    }

    /// What `update` needs of an event: its timestamps fit the state, and no
    /// count or sum overflows.
    pub open spec fn spec_can_update(&self, event: TraceEvent) -> bool {
        let dw = self.window();
        self.spec_enabled() ==> {
            &&& spec_tracker_accepts(dw.tracker(), event)
            &&& spec_tracker_step(dw.tracker(), event).1 matches Some(raw) ==> {
                &&& spec_can_push(dw.aggregator(), raw)
                &&& spec_aggregate(dw.aggregator(), raw).1 matches Some(x) ==> self.spec_can_grow(
                    dw.window().push(x),
                    spec_aggregate(dw.aggregator(), raw).0,
                )
            }
        }
    }

    pub fn new(horizon: Option<u64>, max_steps: usize, enabled: bool) -> (r: Self)
        ensures
            r.wf(),
            r.spec_horizon() == horizon,
            r.spec_enabled() == enabled,
            r.steps() == Seq::<(u64, u64)>::empty(),
            r.slots() == 0,
            r.window().tracker() == DemandTracker::new_spec(),
            r.window().aggregator().spec_last() is None,
            r.window().aggregator().spec_granularity() is None,
            r.window().window() == Seq::<Demand>::empty(),
            r.window().spec_horizon() == horizon,
            r.window().spec_max_length() == max_steps,
    {
        Self {
            demand_window: DemandWindow::new(horizon, max_steps),
            horizon,
            rbf_steps: RBFSteps::new(),
            enabled,
        }
    }

    /// The extractor the run parameters ask for: a horizon of 0 is none.
    pub fn from_lime_context(ctx: &crate::context::LimeContext) -> (r: Self)
        ensures
            r.wf(),
            r.spec_horizon() == (if ctx.rbf_horizon == 0 {
                None::<u64>
            } else {
                Some(ctx.rbf_horizon)
            }),
            r.spec_enabled() == ctx.enable_rbf,
            r.steps() == Seq::<(u64, u64)>::empty(),
            r.window().spec_max_length() == ctx.rbf_max_steps,
    {
        let horizon = if ctx.rbf_horizon == 0 {
            None
        } else {
            Some(ctx.rbf_horizon)
        };
        Self::new(horizon, ctx.rbf_max_steps, ctx.enable_rbf)
    }

    fn update_steps(&mut self)
        requires
            old(self).rbf_steps.wf(),
            old(self).slots() + old(self).window().window().len() < u32::MAX,
            window_fits(old(self).window().window()),
        ensures
            final(self).rbf_steps.wf(),
            final(self).slots() <= old(self).slots() + old(self).window().window().len(),
            final(self).steps() == spec_update_steps(old(self).steps(), old(self).window().window()),
            final(self).demand_window == old(self).demand_window,
            final(self).horizon == old(self).horizon,
            final(self).enabled == old(self).enabled,
    {
        let demands = self.demand_window.demands();
        self.rbf_steps.update(demands);
    }

    /// What `update` makes of the extractor on `event`: nothing while
    /// disabled; otherwise the tracker steps, and a demand it completes goes
    /// through the aggregator and, when one comes out, into the window and
    /// the steps, with a coarser granularity if the window grew too long,
    /// then both are trimmed to the horizon.
    pub open spec fn spec_updated(&self, next: Self, event: TraceEvent) -> bool {
        &&& next.spec_horizon() == self.spec_horizon()
        &&& next.spec_enabled() == self.spec_enabled()
        &&& next.window().spec_max_length() == self.window().spec_max_length()
        &&& !self.spec_enabled() ==> next == *self
        &&& self.spec_enabled() ==> ({
            let dw = self.window();
            let (t1, raw) = spec_tracker_step(dw.tracker(), event);
            &&& next.window().tracker() == t1
            &&& match raw {
                None => {
                    &&& next.window().aggregator() == dw.aggregator()
                    &&& next.window().window() == dw.window()
                    &&& next.steps() == self.steps()
                },
                Some(raw) => {
                    let (a, o) = spec_aggregate(dw.aggregator(), raw);
                    match o {
                        None => {
                            &&& next.window().aggregator() == a
                            &&& next.window().window() == dw.window()
                            &&& next.steps() == self.steps()
                        },
                        Some(x) => {
                            let (a2, w2, steps2) = self.spec_regrain(dw.window().push(x), a);
                            &&& next.window().aggregator() == a2
                            &&& next.window().window() == spec_trim_window(w2, self.spec_horizon())
                            &&& next.steps() == match self.spec_horizon() {
                                Some(h) => spec_trim_steps(steps2, h),
                                None => steps2,
                            }
                        },
                    }
                },
            }
        })
    }

    /// Consumes an event. A new demand in the window updates the steps; a
    /// window grown too long is aggregated with a coarser granularity, and
    /// the steps are coarsened with it; then the window and the steps are
    /// trimmed to the horizon.
    pub fn update(&mut self, event: &TraceEvent)
        requires
            old(self).wf(),
            old(self).spec_can_update(*event),
        ensures
            final(self).wf(),
            old(self).spec_updated(*final(self), *event),
    {
        if !self.enabled {
            return;
        }
        let ghost old_self = *self;
        let did_change = self.demand_window.update(event);
        if did_change {
            let ghost w1 = self.demand_window.window();
            let ghost a = self.demand_window.aggregator();
            let ghost s0 = self.rbf_steps.items();
            self.update_steps();
            proof {
                lemma_update_positive(s0, w1);
            }
            let change_granularity = self.demand_window.should_increase_granularity();
            if change_granularity {
                let ghost steps1 = self.rbf_steps.items();
                let ghost flushed = match a.spec_last() {
                    Some(l) => w1.push(l),
                    None => w1,
                };
                let ghost start = DemandAggregator::spec_with(None, Some(old_self.spec_coarse_granularity()));
                self.demand_window.increase_granularity();
                proof {
                    lemma_aggregate_all_granularity(start, flushed);
                    assert(self.demand_window.aggregator().spec_granularity() == Some(old_self.spec_coarse_granularity()));
                }
                self.compress();
                proof {
                    lemma_update_positive(self.rbf_steps.items(), self.demand_window.window());
                }
                self.update_steps();
            }
            self.demand_window.trim();
            let ghost steps2 = self.rbf_steps.items();
            self.rbf_steps.do_trim_steps(self.horizon);
            proof {
                if let Some(h) = self.horizon {
                    lemma_trim_prefix(steps2, h);
                    assert forall|i: int| 0 <= i < self.rbf_steps.items().len() implies (#[trigger] self.rbf_steps.items()[i]).0 >= 1 by {
                        assert(self.rbf_steps.items()[i] == steps2[i]);
                    }
                }
            }
        }
    }

    fn compress(&mut self)
        requires
            old(self).rbf_steps.wf(),
            deltas_positive(old(self).steps()),
            old(self).steps().len() < u32::MAX,
            old(self).demand_window.aggregator().wf(),
        ensures
            final(self).rbf_steps.wf(),
            deltas_positive(final(self).steps()),
            final(self).demand_window == old(self).demand_window,
            final(self).horizon == old(self).horizon,
            final(self).enabled == old(self).enabled,
            final(self).steps() == match old(self).demand_window.aggregator().spec_granularity() {
                Some(g) => spec_coarsen(old(self).steps(), g),
                None => old(self).steps(),
            },
            final(self).slots() <= match old(self).demand_window.aggregator().spec_granularity() {
                Some(g) => old(self).steps().len() + 1,
                None => old(self).slots(),
            },
    {
        if let Some(g) = self.demand_window.aggregator.get_time_granularity_ns() {
            proof {
                lemma_coarsen_positive(self.rbf_steps.items(), g, 0, 1, 0, false);
            }
            self.rbf_steps.coarsen(g);
        }
    }

    /// Pushes the pending demand of the window, and updates the steps with
    /// it.
    pub fn flush(&mut self)
        requires
            old(self).wf(),
            old(self).spec_enabled() && old(self).window().aggregator().spec_last() is Some ==> ({
                let w = old(self).window().window().push(old(self).window().aggregator().spec_last()->0);
                &&& old(self).slots() + w.len() < u32::MAX
                &&& window_fits(w)
            }),
        ensures
            final(self).wf(),
            final(self).spec_horizon() == old(self).spec_horizon(),
            final(self).spec_enabled() == old(self).spec_enabled(),
            !old(self).spec_enabled() ==> *final(self) == *old(self),
            old(self).spec_enabled() ==> match old(self).window().aggregator().spec_last() {
                Some(l) => {
                    let w = old(self).window().window().push(l);
                    &&& final(self).window().window() == w
                    &&& final(self).window().aggregator() == old(self).window().aggregator().with_last(None)
                    &&& final(self).steps() == spec_update_steps(old(self).steps(), w)
                },
                None => {
                    &&& final(self).window().window() == old(self).window().window()
                    &&& final(self).steps() == old(self).steps()
                },
            },
    {
        if !self.enabled {
            return;
        }
        let did_change = self.demand_window.flush();
        if did_change {
            let ghost s0 = self.rbf_steps.items();
            let ghost w = self.demand_window.window();
            self.update_steps();
            proof {
                lemma_update_positive(s0, w);
            }
        }
    }

    /// True when extraction is disabled or no step was found.
    pub fn is_empty(&self) -> (r: bool)
        ensures
            r == (!self.spec_enabled() || self.steps().len() == 0),
    {
        !self.enabled || self.rbf_steps.len() == 0
    }

    /// The pairs of the extracted RBF, cut at the horizon.
    pub fn rbf_step_pairs(&self) -> (r: Vec<(u64, u64)>)
        requires
            self.wf(),
            self.window().aggregator().spec_granularity() is None && !exact_pairs_from(self.steps(), self.spec_horizon().unwrap_or(u64::MAX), 0, 0).1
                && exact_pairs_from(self.steps(), self.spec_horizon().unwrap_or(u64::MAX), 0, 0).0.len() == 1
                ==> exact_pairs_from(self.steps(), self.spec_horizon().unwrap_or(u64::MAX), 0, 0).0[0].1 < u64::MAX,
        ensures
            r@ == spec_rbf_pairs(self.steps(), self.window().aggregator().spec_granularity() is Some, self.spec_horizon()),
    {
        let mut ret: Vec<(u64, u64)> = Vec::new();
        let shifted = self.demand_window.is_aggregated();
        proof {
            assert(ret@ + exact_pairs_from(self.steps(), self.spec_horizon().unwrap_or(u64::MAX), 0, 0).0
                =~= exact_pairs_from(self.steps(), self.spec_horizon().unwrap_or(u64::MAX), 0, 0).0);
            assert(ret@ + shifted_pairs_from(self.steps(), self.spec_horizon().unwrap_or(u64::MAX), 0, 0)
                =~= shifted_pairs_from(self.steps(), self.spec_horizon().unwrap_or(u64::MAX), 0, 0));
        }
        self.rbf_steps.step_pairs(&mut ret, shifted, self.horizon);
        ret
    }

    /// What `to_rbf` needs: an exact RBF of a single step within the
    /// horizon has a work below `u64::MAX`.
    pub open spec fn spec_can_report(&self) -> bool {
        self.spec_enabled() && self.window().aggregator().spec_granularity() is None && !exact_pairs_from(self.steps(), self.spec_horizon().unwrap_or(u64::MAX), 0, 0).1
            && exact_pairs_from(self.steps(), self.spec_horizon().unwrap_or(u64::MAX), 0, 0).0.len() == 1
            ==> exact_pairs_from(self.steps(), self.spec_horizon().unwrap_or(u64::MAX), 0, 0).0[0].1 < u64::MAX
    }

    /// Whether `to_rbf` can report the RBF: see `spec_can_report`.
    pub fn can_report(&self) -> (r: bool)
        requires
            self.wf(),
        ensures
            r == self.spec_can_report(),
    {
        if !self.enabled || self.demand_window.is_aggregated() {
            return true;
        }
        let items = self.rbf_steps.items_vec();
        let h = match self.horizon {
            Some(h) => h,
            None => u64::MAX,
        };
        let ghost s = items@;
        proof {
            reveal_with_fuel(exact_pairs_from, 3);
            if s.len() >= 2 && s[0].0 <= h {
                assert(exact_pairs_from(s, h, 1, s[0].1).0.len() >= 1);
            }
        }
        if items.len() == 1 && items[0].0 <= h {
            items[0].1 < u64::MAX
        } else {
            true
        }
    }

    /// The extracted RBF; empty when extraction is disabled.
    pub fn to_rbf(&self) -> (r: Rbf)
        requires
            self.wf(),
            self.spec_can_report(),
        ensures
            !self.spec_enabled() ==> r.spec_steps() == Seq::<(u64, u64)>::empty(),
            self.spec_enabled() ==> r.spec_steps() == spec_rbf_pairs(self.steps(), self.window().aggregator().spec_granularity() is Some, self.spec_horizon()),
    {
        if !self.enabled {
            Rbf::default()
        } else {
            Rbf::new(self.rbf_step_pairs())
        }
    }
}

/// The RBF pairs of the steps: shifted ones once demands are aggregated,
/// exact ones otherwise (a single exact pair gets a second one, one unit
/// of work further).
pub open spec fn spec_rbf_pairs(s: Seq<(u64, u64)>, shifted: bool, horizon: Option<u64>) -> Seq<(u64, u64)> {
    let h = horizon.unwrap_or(u64::MAX);
    if shifted {
        shifted_pairs_from(s, h, 0, 0)
    } else {
        let e = exact_pairs_from(s, h, 0, 0);
        if !e.1 && e.0.len() == 1 {
            e.0.push(((1 + e.0[0].1) as u64, e.0[0].1))
        } else {
            e.0
        }
    }
}

/// Steps in increasing order of delta, whose work does not decrease.
pub open spec fn is_staircase(s: Seq<(u64, u64)>) -> bool {
    forall|i: int, j: int| 0 <= i < j < s.len() ==> (#[trigger] s[i]).0 < (#[trigger] s[j]).0 && s[i].1 <= s[j].1
}

proof fn lemma_scan_passes(s: Seq<(u64, u64)>, i: int, d: u64, w: u64)
    requires
        0 <= i <= s.len(),
    ensures
        i <= spec_scan(s, i, d, w) <= s.len(),
        forall|j: int| i <= j < spec_scan(s, i, d, w) ==> (#[trigger] s[j]).0 < d && s[j].1 < w,
        spec_scan(s, i, d, w) < s.len() ==> (s[spec_scan(s, i, d, w)].0 < d ==> s[spec_scan(s, i, d, w)].1 >= w),
    decreases s.len() - i,
{
    if i < s.len() && s[i].0 < d && s[i].1 < w {
        lemma_scan_passes(s, i + 1, d, w);
    }
}

proof fn lemma_first_above_passes(s: Seq<(u64, u64)>, k: int, w: u64)
    requires
        0 <= k <= s.len(),
    ensures
        k <= spec_first_above(s, k, w) <= s.len(),
        forall|j: int| k <= j < spec_first_above(s, k, w) ==> (#[trigger] s[j]).1 <= w,
        spec_first_above(s, k, w) < s.len() ==> s[spec_first_above(s, k, w)].1 > w,
    decreases s.len() - k,
{
    if k < s.len() && s[k].1 <= w {
        lemma_first_above_passes(s, k + 1, w);
    }
}

/// Inserting a step into a staircase, scanning from a position before which
/// every step has a smaller delta and no more work, keeps a staircase; every
/// step before the position where the next scan starts has at most that
/// delta and that work.
pub proof fn lemma_insert_step_staircase(s: Seq<(u64, u64)>, p: int, d: u64, w: u64)
    requires
        is_staircase(s),
        0 <= p <= s.len(),
        forall|i: int| 0 <= i < p ==> (#[trigger] s[i]).0 < d && s[i].1 <= w,
    ensures
        is_staircase(spec_insert_step(s, p, d, w).0),
        0 <= spec_insert_step(s, p, d, w).1 <= spec_insert_step(s, p, d, w).0.len(),
        forall|i: int|
            0 <= i < spec_insert_step(s, p, d, w).1 ==> (#[trigger] spec_insert_step(s, p, d, w).0[i]).0
                <= d && spec_insert_step(s, p, d, w).0[i].1 <= w,
{
    lemma_scan_passes(s, p, d, w);
    let r = spec_scan(s, p, d, w);
    if r >= s.len() {
        let t = s.push((d, w));
        assert forall|i: int, j: int| 0 <= i < j < t.len() implies (#[trigger] t[i]).0 < (
        #[trigger] t[j]).0 && t[i].1 <= t[j].1 by {
            if j == s.len() {
                assert(t[i] == s[i]);
            } else {
                assert(t[i] == s[i] && t[j] == s[j]);
            }
        }
    } else if s[r].0 < d || (s[r].0 == d && s[r].1 >= w) {
    } else {
        let k0 = if s[r].0 == d {
            r + 1
        } else {
            r
        };
        lemma_first_above_passes(s, k0, w);
        let k = spec_first_above(s, k0, w);
        let t = s.take(r) + seq![(d, w)] + s.skip(k);
        assert forall|i: int| 0 <= i < t.len() implies #[trigger] t[i] == if i < r {
            s[i]
        } else if i == r {
            (d, w)
        } else {
            s[k + i - r - 1]
        } by {}
        assert(k < s.len() ==> s[k].0 > d) by {
            if k < s.len() {
                if s[r].0 == d {
                    assert(s[r].0 < s[k].0);
                } else if k > r {
                    assert(s[r].0 < s[k].0);
                }
            }
        }
        assert forall|i: int, j: int| 0 <= i < j < t.len() implies (#[trigger] t[i]).0 < (
        #[trigger] t[j]).0 && t[i].1 <= t[j].1 by {
            if j > r && i > r {
                assert(s[k + i - r - 1].0 < s[k + j - r - 1].0);
            } else if j > r && i == r {
                assert(t[j] == s[k + j - r - 1]);
                if k + j - r - 1 > k {
                    assert(s[k].0 < s[k + j - r - 1].0 && s[k].1 <= s[k + j - r - 1].1);
                }
            } else if j > r && i < r {
                assert(t[j] == s[k + j - r - 1]);
                if k + j - r - 1 > k {
                    assert(s[k].0 < s[k + j - r - 1].0 && s[k].1 <= s[k + j - r - 1].1);
                }
            }
        }
    }
}

/// The steps of a fold keep a staircase when the demands from `i` on arrive
/// in strictly increasing order.
proof fn lemma_fold_staircase(s: Seq<(u64, u64)>, p: int, w: Seq<Demand>, last: u64, i: int)
    requires
        is_staircase(s),
        0 <= p <= s.len(),
        0 <= i <= w.len(),
        window_fits(w),
        w.len() > 0 && last == w.last().arrival,
        forall|a: int, b: int| 0 <= a < b < w.len() ==> (#[trigger] w[a]).arrival < (#[trigger] w[b]).arrival,
        i < w.len() ==> forall|j: int| 0 <= j < p ==> (#[trigger] s[j]).0 <= step_delta(last, w[i]) && s[j].1
            <= work_sum(w.skip(i)),
        i == w.len() ==> p == 0,
    ensures
        is_staircase(spec_fold_steps(s, p, w, last, i)),
    decreases i,
{
    if i > 0 {
        let d = step_delta(last, w[i - 1]);
        let a = work_sum(w.skip(i - 1)) as u64;
        lemma_work_sum_skip(w, i - 1);
        lemma_work_sum_skip(w, 0);
        lemma_work_sum_nonneg(w.take(i - 1));
        lemma_work_sum_nonneg(w.skip(i));
        assert(w.skip(0) == w);
        assert(w[i - 1].arrival <= last);
        if i < w.len() {
            assert(w[i - 1].arrival < w[i].arrival);
            assert(w[i].arrival <= last);
            assert(step_delta(last, w[i]) < d);
        }
        lemma_insert_step_staircase(s, p, d, a);
        let st = spec_insert_step(s, p, d, a);
        if i - 1 < w.len() {
            if i - 2 >= 0 {
                assert(w[i - 2].arrival < w[i - 1].arrival);
                lemma_work_sum_skip(w, i - 2);
            }
        }
        lemma_fold_staircase(st.0, st.1, w, last, i - 1);
    }
}

/// Updating a staircase with a window of demands arriving in strictly
/// increasing order keeps a staircase: steps in increasing order of delta,
/// with work that does not decrease.
pub proof fn lemma_update_keeps_staircase(s: Seq<(u64, u64)>, w: Seq<Demand>)
    requires
        is_staircase(s),
        window_fits(w),
        forall|a: int, b: int| 0 <= a < b < w.len() ==> (#[trigger] w[a]).arrival < (#[trigger] w[b]).arrival,
    ensures
        is_staircase(spec_update_steps(s, w)),
{
    if w.len() > 0 {
        lemma_fold_staircase(s, 0, w, w.last().arrival, w.len() as int);
    }
}

/// The deltas of the steps never decrease.
pub open spec fn deltas_sorted(s: Seq<(u64, u64)>) -> bool {
    forall|i: int, j: int| 0 <= i < j < s.len() ==> (#[trigger] s[i]).0 <= (#[trigger] s[j]).0
}

/// Inserting a step into steps of sorted deltas, scanning from a position
/// before which no delta is larger, keeps the deltas sorted; no delta
/// before the position where the next scan starts is larger.
proof fn lemma_insert_step_sorted(s: Seq<(u64, u64)>, p: int, d: u64, w: u64)
    requires
        deltas_sorted(s),
        0 <= p <= s.len(),
        forall|i: int| 0 <= i < p ==> (#[trigger] s[i]).0 <= d,
    ensures
        deltas_sorted(spec_insert_step(s, p, d, w).0),
        0 <= spec_insert_step(s, p, d, w).1 <= spec_insert_step(s, p, d, w).0.len(),
        forall|i: int|
            0 <= i < spec_insert_step(s, p, d, w).1 ==> (#[trigger] spec_insert_step(s, p, d, w).0[i]).0
                <= d,
{
    lemma_scan_passes(s, p, d, w);
    let r = spec_scan(s, p, d, w);
    if r >= s.len() {
        let t = s.push((d, w));
        assert forall|i: int, j: int| 0 <= i < j < t.len() implies (#[trigger] t[i]).0 <= (
        #[trigger] t[j]).0 by {
            if j == s.len() {
                assert(t[i] == s[i]);
            } else {
                assert(t[i] == s[i] && t[j] == s[j]);
            }
        }
    } else if s[r].0 < d || (s[r].0 == d && s[r].1 >= w) {
    } else {
        let k0 = if s[r].0 == d {
            r + 1
        } else {
            r
        };
        lemma_first_above_passes(s, k0, w);
        let k = spec_first_above(s, k0, w);
        let t = s.take(r) + seq![(d, w)] + s.skip(k);
        assert forall|i: int| 0 <= i < t.len() implies #[trigger] t[i] == if i < r {
            s[i]
        } else if i == r {
            (d, w)
        } else {
            s[k + i - r - 1]
        } by {}
        assert forall|j: int| k <= j < s.len() implies (#[trigger] s[j]).0 >= d by {
            assert(s[r].0 <= s[j].0);
        }
        assert forall|i: int, j: int| 0 <= i < j < t.len() implies (#[trigger] t[i]).0 <= (
        #[trigger] t[j]).0 by {
            if j > r && i > r {
                assert(s[k + i - r - 1].0 <= s[k + j - r - 1].0);
            } else if j > r {
                assert(t[j] == s[k + j - r - 1]);
            } else if j == r {
                assert(t[i] == s[i]);
            } else {
                assert(t[i] == s[i] && t[j] == s[j]);
            }
        }
    }
}

/// The steps of a fold keep sorted deltas when the demands arrive in
/// order.
proof fn lemma_fold_sorted(s: Seq<(u64, u64)>, p: int, w: Seq<Demand>, last: u64, i: int)
    requires
        deltas_sorted(s),
        0 <= p <= s.len(),
        0 <= i <= w.len(),
        window_fits(w),
        w.len() > 0 && last == w.last().arrival,
        forall|a: int, b: int| 0 <= a < b < w.len() ==> (#[trigger] w[a]).arrival <= (#[trigger] w[b]).arrival,
        i < w.len() ==> forall|j: int| 0 <= j < p ==> (#[trigger] s[j]).0 <= step_delta(last, w[i]),
        i == w.len() ==> p == 0,
    ensures
        deltas_sorted(spec_fold_steps(s, p, w, last, i)),
    decreases i,
{
    if i > 0 {
        let d = step_delta(last, w[i - 1]);
        let a = work_sum(w.skip(i - 1)) as u64;
        assert(w[i - 1].arrival <= last);
        if i < w.len() {
            assert(w[i - 1].arrival <= w[i].arrival);
            assert(w[i].arrival <= last);
            assert(step_delta(last, w[i]) <= d);
        }
        lemma_insert_step_sorted(s, p, d, a);
        let st = spec_insert_step(s, p, d, a);
        if i - 2 >= 0 {
            assert(w[i - 2].arrival <= w[i - 1].arrival);
            assert(step_delta(last, w[i - 1]) <= step_delta(last, w[i - 2]));
        }
        lemma_fold_sorted(st.0, st.1, w, last, i - 1);
    }
}

/// Updating steps of sorted deltas with a window of demands in arrival
/// order keeps the deltas sorted.
pub proof fn lemma_update_keeps_sorted(s: Seq<(u64, u64)>, w: Seq<Demand>)
    requires
        deltas_sorted(s),
        window_fits(w),
        forall|a: int, b: int| 0 <= a < b < w.len() ==> (#[trigger] w[a]).arrival <= (#[trigger] w[b]).arrival,
    ensures
        deltas_sorted(spec_update_steps(s, w)),
{
    if w.len() > 0 {
        lemma_fold_sorted(s, 0, w, w.last().arrival, w.len() as int);
    }
}

/// The bound of a staircase at `x`: the work of its last step whose delta
/// is at most `x`; 0 if there is none.
pub open spec fn staircase_bound(s: Seq<(u64, u64)>, x: int) -> int
    decreases s.len(),
{
    if s.len() == 0 {
        0
    } else if s.last().0 <= x {
        s.last().1 as int
    } else {
        staircase_bound(s.drop_last(), x)
    }
}

/// `b` bounds the work of every step whose delta is at most `x`, and is
/// the work of one of them, or 0 when there is none.
pub open spec fn is_max_work(s: Seq<(u64, u64)>, x: int, b: int) -> bool {
    &&& forall|i: int| 0 <= i < s.len() && (#[trigger] s[i]).0 <= x ==> s[i].1 <= b
    &&& (exists|i: int| 0 <= i < s.len() && (#[trigger] s[i]).0 <= x && s[i].1 == b) || (b == 0
        && forall|i: int| 0 <= i < s.len() ==> (#[trigger] s[i]).0 > x)
}

/// On a staircase, the bound is the largest work of the steps up to `x`.
proof fn lemma_bound_is_max(s: Seq<(u64, u64)>, x: int)
    requires
        is_staircase(s),
    ensures
        is_max_work(s, x, staircase_bound(s, x)),
    decreases s.len(),
{
    if s.len() > 0 {
        let t = s.drop_last();
        assert(is_staircase(t)) by {
            assert forall|i: int, j: int| 0 <= i < j < t.len() implies (#[trigger] t[i]).0 < (
            #[trigger] t[j]).0 && t[i].1 <= t[j].1 by {
                assert(t[i] == s[i] && t[j] == s[j]);
            }
        }
        lemma_bound_is_max(t, x);
        if s.last().0 <= x {
            let n = s.len() - 1;
            assert forall|i: int| 0 <= i < s.len() && (#[trigger] s[i]).0 <= x implies s[i].1
                <= staircase_bound(s, x) by {
                if i < n {
                    assert(s[i].1 <= s[n].1);
                }
            }
            assert(s[n].0 <= x && s[n].1 == staircase_bound(s, x));
        } else {
            assert forall|i: int| 0 <= i < s.len() && (#[trigger] s[i]).0 <= x implies s[i].1
                <= staircase_bound(s, x) by {
                assert(i < s.len() - 1);
                assert(t[i] == s[i]);
            }
            if exists|i: int| 0 <= i < t.len() && (#[trigger] t[i]).0 <= x && t[i].1 == staircase_bound(t, x) {
                let i = choose|i: int| 0 <= i < t.len() && (#[trigger] t[i]).0 <= x && t[i].1 == staircase_bound(t, x);
                assert(s[i] == t[i]);
            } else {
                assert forall|i: int| 0 <= i < s.len() implies (#[trigger] s[i]).0 > x by {
                    if i < s.len() - 1 {
                        assert(t[i] == s[i]);
                    }
                }
            }
        }
    }
}

/// A largest work is unique.
proof fn lemma_max_work_unique(s: Seq<(u64, u64)>, x: int, a: int, b: int)
    requires
        is_max_work(s, x, a),
        is_max_work(s, x, b),
    ensures
        a == b,
{
    if exists|i: int| 0 <= i < s.len() && (#[trigger] s[i]).0 <= x && s[i].1 == a {
        let i = choose|i: int| 0 <= i < s.len() && (#[trigger] s[i]).0 <= x && s[i].1 == a;
        assert(s[i].1 <= b);
        if exists|j: int| 0 <= j < s.len() && (#[trigger] s[j]).0 <= x && s[j].1 == b {
            let j = choose|j: int| 0 <= j < s.len() && (#[trigger] s[j]).0 <= x && s[j].1 == b;
            assert(s[j].1 <= a);
        } else {
            assert(s[i].0 > x);
        }
    } else if exists|j: int| 0 <= j < s.len() && (#[trigger] s[j]).0 <= x && s[j].1 == b {
        let j = choose|j: int| 0 <= j < s.len() && (#[trigger] s[j]).0 <= x && s[j].1 == b;
        assert(s[j].0 > x);
    }
}

/// The largest work of a staircase where `(d, w)` replaced the steps of
/// positions `r` to `k`, all of delta at least `d` and of work at most `w`.
proof fn lemma_envelope_replace(s: Seq<(u64, u64)>, t: Seq<(u64, u64)>, r: int, k: int, d: u64, w: u64, x: int)
    requires
        is_staircase(s),
        is_staircase(t),
        0 <= r <= k <= s.len(),
        t == s.take(r) + seq![(d, w)] + s.skip(k),
        forall|i: int| 0 <= i < r ==> (#[trigger] s[i]).0 < d,
        forall|i: int| r <= i < k ==> (#[trigger] s[i]).0 >= d && s[i].1 <= w,
    ensures
        staircase_bound(t, x) == if x >= d && w > staircase_bound(s, x) {
            w as int
        } else {
            staircase_bound(s, x)
        },
{
    lemma_bound_is_max(s, x);
    lemma_bound_is_max(t, x);
    let b = staircase_bound(s, x);
    let m = if x >= d && w > b {
        w as int
    } else {
        b
    };
    assert forall|i: int| 0 <= i < t.len() implies #[trigger] t[i] == if i < r {
        s[i]
    } else if i == r {
        (d, w)
    } else {
        s[k + i - r - 1]
    } by {}
    assert forall|i: int| 0 <= i < t.len() && (#[trigger] t[i]).0 <= x implies t[i].1 <= m by {
        if i < r {
            assert(s[i].0 <= x);
        } else if i > r {
            assert(s[k + i - r - 1].0 <= x);
        }
    }
    if exists|j: int| 0 <= j < s.len() && (#[trigger] s[j]).0 <= x && s[j].1 == b {
        let j = choose|j: int| 0 <= j < s.len() && (#[trigger] s[j]).0 <= x && s[j].1 == b;
        if j < r {
            assert(t[j] == s[j]);
        } else if j >= k {
            assert(t[j - k + r + 1] == s[j]);
        } else {
            assert(t[r] == (d, w));
        }
        if x >= d {
            assert(t[r] == (d, w));
        }
    } else {
        if x >= d {
            assert(t[r] == (d, w));
        } else {
            assert forall|i: int| 0 <= i < t.len() implies (#[trigger] t[i]).0 > x by {
                if i < r {
                    assert(t[i] == s[i]);
                } else if i > r {
                    assert(t[i] == s[k + i - r - 1]);
                }
            }
        }
    }
    assert(is_max_work(t, x, m));
    lemma_max_work_unique(t, x, m, staircase_bound(t, x));
}

/// Inserting the step `(d, w)` into a staircase, scanning from a position
/// before which every step has a smaller delta and no more work, raises
/// the bound to `w` from `d` on and leaves it unchanged elsewhere: the
/// steps stay the upper envelope of the demands.
pub proof fn lemma_insert_step_envelope(s: Seq<(u64, u64)>, p: int, d: u64, w: u64, x: int)
    requires
        is_staircase(s),
        0 <= p <= s.len(),
        forall|i: int| 0 <= i < p ==> (#[trigger] s[i]).0 < d && s[i].1 <= w,
    ensures
        staircase_bound(spec_insert_step(s, p, d, w).0, x) == if x >= d && w > staircase_bound(s, x) {
            w as int
        } else {
            staircase_bound(s, x)
        },
{
    lemma_insert_step_staircase(s, p, d, w);
    lemma_scan_passes(s, p, d, w);
    lemma_bound_is_max(s, x);
    let t = spec_insert_step(s, p, d, w).0;
    let b = staircase_bound(s, x);
    let r = spec_scan(s, p, d, w);
    if r >= s.len() {
        // (d, w) is appended after steps of smaller delta and no more work.
        assert(t.drop_last() == s);
        if x >= d && exists|j: int| 0 <= j < s.len() && (#[trigger] s[j]).0 <= x && s[j].1 == b {
            let j = choose|j: int| 0 <= j < s.len() && (#[trigger] s[j]).0 <= x && s[j].1 == b;
            assert(s[j].1 <= w);
        }
    } else if s[r].0 < d || (s[r].0 == d && s[r].1 >= w) {
        // A step of no larger delta has at least the work: nothing changes.
        if x >= d {
            assert(s[r].0 <= x);
        }
    } else {
        let k0 = if s[r].0 == d {
            r + 1
        } else {
            r
        };
        lemma_first_above_passes(s, k0, w);
        let k = spec_first_above(s, k0, w);
        assert forall|i: int| r <= i < k implies (#[trigger] s[i]).0 >= d && s[i].1 <= w by {
            if i > r {
                assert(s[r].0 < s[i].0);
            }
        }
        lemma_envelope_replace(s, t, r, k, d, w, x);
    }
}

/// The largest work of the demands `w[0..i]` that fits in a window of
/// length `x`: the work of a demand and of all the demands after it, when
/// it arrived at most `x - 1` before the newest one (`last`).
pub open spec fn demand_bound(w: Seq<Demand>, last: u64, i: int, x: int) -> int
    decreases i,
{
    if i <= 0 || i > w.len() {
        0
    } else {
        let rest = demand_bound(w, last, i - 1, x);
        let c = if step_delta(last, w[i - 1]) <= x {
            work_sum(w.skip(i - 1))
        } else {
            0
        };
        if c > rest {
            c
        } else {
            rest
        }
    }
}

proof fn lemma_fold_envelope(s: Seq<(u64, u64)>, p: int, w: Seq<Demand>, last: u64, i: int, x: int)
    requires
        is_staircase(s),
        0 <= p <= s.len(),
        0 <= i <= w.len(),
        window_fits(w),
        w.len() > 0 && last == w.last().arrival,
        forall|a: int, b: int| 0 <= a < b < w.len() ==> (#[trigger] w[a]).arrival < (#[trigger] w[b]).arrival,
        i < w.len() ==> forall|j: int| 0 <= j < p ==> (#[trigger] s[j]).0 <= step_delta(last, w[i]) && s[j].1
            <= work_sum(w.skip(i)),
        i == w.len() ==> p == 0,
    ensures
        staircase_bound(spec_fold_steps(s, p, w, last, i), x) == if demand_bound(w, last, i, x)
            > staircase_bound(s, x) {
            demand_bound(w, last, i, x)
        } else {
            staircase_bound(s, x)
        },
    decreases i,
{
    lemma_staircase_bound_nonneg(s, x);
    if i > 0 {
        let d = step_delta(last, w[i - 1]);
        let a = work_sum(w.skip(i - 1)) as u64;
        lemma_work_sum_skip(w, i - 1);
        lemma_work_sum_skip(w, 0);
        lemma_work_sum_nonneg(w.take(i - 1));
        lemma_work_sum_nonneg(w.skip(i));
        assert(w.skip(0) == w);
        assert(w[i - 1].arrival <= last);
        if i < w.len() {
            assert(w[i - 1].arrival < w[i].arrival);
            assert(w[i].arrival <= last);
            assert(step_delta(last, w[i]) < d);
        }
        lemma_insert_step_staircase(s, p, d, a);
        lemma_insert_step_envelope(s, p, d, a, x);
        let st = spec_insert_step(s, p, d, a);
        if i - 2 >= 0 {
            assert(w[i - 2].arrival < w[i - 1].arrival);
            lemma_work_sum_skip(w, i - 2);
        }
        lemma_fold_envelope(st.0, st.1, w, last, i - 1, x);
        lemma_demand_bound_nonneg(w, last, i - 1, x);
        let b = staircase_bound(s, x);
        let r = demand_bound(w, last, i - 1, x);
        let c = if d <= x {
            work_sum(w.skip(i - 1))
        } else {
            0
        };
        assert(a == work_sum(w.skip(i - 1)));
        assert(demand_bound(w, last, i, x) == if c > r {
            c
        } else {
            r
        });
        assert(staircase_bound(st.0, x) == if c > b {
            c
        } else {
            b
        });
    }
}

proof fn lemma_staircase_bound_nonneg(s: Seq<(u64, u64)>, x: int)
    ensures
        staircase_bound(s, x) >= 0,
    decreases s.len(),
{
    if s.len() > 0 {
        lemma_staircase_bound_nonneg(s.drop_last(), x);
    }
}

proof fn lemma_demand_bound_nonneg(w: Seq<Demand>, last: u64, i: int, x: int)
    ensures
        demand_bound(w, last, i, x) >= 0,
    decreases i,
{
    if 0 < i <= w.len() {
        lemma_demand_bound_nonneg(w, last, i - 1, x);
    }
}

/// Updating a staircase with a window of demands arriving in strictly
/// increasing order makes its bound at every `x` the larger of the bound
/// before and of the largest work of the demands that fits in a window of
/// length `x`: the steps are the request-bound function of the demands.
pub proof fn lemma_update_envelope(s: Seq<(u64, u64)>, w: Seq<Demand>, x: int)
    requires
        is_staircase(s),
        window_fits(w),
        forall|a: int, b: int| 0 <= a < b < w.len() ==> (#[trigger] w[a]).arrival < (#[trigger] w[b]).arrival,
    ensures
        w.len() > 0 ==> staircase_bound(spec_update_steps(s, w), x) == if demand_bound(
            w,
            w.last().arrival,
            w.len() as int,
            x,
        ) > staircase_bound(s, x) {
            demand_bound(w, w.last().arrival, w.len() as int, x)
        } else {
            staircase_bound(s, x)
        },
        w.len() == 0 ==> spec_update_steps(s, w) == s,
{
    if w.len() > 0 {
        lemma_fold_envelope(s, 0, w, w.last().arrival, w.len() as int, x);
    }
}

} // verus!
