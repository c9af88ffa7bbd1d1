//! Task model extraction: the intermediate representation of a thread
//! feeds the jobs it completes to the model extractors of their separator.

use crate::events::TraceEvent;
use crate::ir::timeline::layers::base::{lemma_same_coverage, spec_same};
use crate::ir::timeline::layers::execution::ExecutionLayer;
use crate::ir::timeline::layers::suspension::SuspensionLayer;
use crate::ir::timeline::layers::Layer;
use crate::ir::timeline::{spec_try_cleaned, Timeline};
use crate::ir::Ir;
use crate::utils::{find_key, lemma_find_key, Dispatcher};
use crate::job::{spec_arrival, spec_boundaries, Job};
use crate::job_separator::JobSeparator;
use vstd::prelude::*;

use super::arrival::arrival_curve::ArrivalCurve;
use super::event_rate::EventRate;
use super::rbf::{Rbf, RbfExtractor};
use super::arrival::periodic::arrival::{spec_periodic_updated, DiffPeriodicExtractor};
use super::arrival::periodic::{period_source, spec_period_source, PeriodSource};
use super::arrival::{ArrivalModel, ArrivalModelExtractor, Periodic};
use super::execution::{last_sum, ExecutionTime};
use super::job_count::JobCounter;
use super::suspension::{spec_bag_updated, BagOfSegmentedSelfSuspension, DynamicSelfSuspension};

verus! {

/// The model extractors of one job separator: execution times, suspension
/// times and segments, the job count, the arrival curve, and the periods
/// on arrival when the separator gives them.
pub struct JobSeparatorExtractors {
    wcet: ExecutionTime,
    suspension: DynamicSelfSuspension,
    bsss: BagOfSegmentedSelfSuspension,
    count: JobCounter,
    arrival_curve: ArrivalCurve,
    periodic: Option<DiffPeriodicExtractor>,
}

/// The processor time of `job` on `t`.
pub open spec fn spec_rt_time(t: Timeline, job: Job) -> u64 {
    t.rt().spec_coverage(spec_boundaries(job)) as u64
}

/// The suspension time of `job` on `t`.
pub open spec fn spec_su_time(t: Timeline, job: Job) -> u64 {
    t.su().spec_coverage(spec_boundaries(job)) as u64
}

/// The periodic model that a periodic detector reports.
pub open spec fn spec_periodic_model(p: DiffPeriodicExtractor) -> Option<ArrivalModel> {
    match p.spec_period() {
        Some(period) => Some(
            ArrivalModel::Periodic(
                Periodic::Arrival {
                    period,
                    max_jitter: match p.spec_max_jitter() {
                        Some(m) => m,
                        None => 0,
                    },
                    offset: match p.spec_offset() {
                        Some(o) => o,
                        None => 0,
                    },
                },
            ),
        ),
        None => None,
    }
}

impl JobSeparatorExtractors {
    pub closed spec fn wcet(&self) -> ExecutionTime {
        self.wcet
    }

    pub closed spec fn suspension(&self) -> DynamicSelfSuspension {
        self.suspension
    }

    pub closed spec fn bsss(&self) -> BagOfSegmentedSelfSuspension {
        self.bsss
    }

    pub closed spec fn count(&self) -> JobCounter {
        self.count
    }

    pub closed spec fn arrival_curve(&self) -> ArrivalCurve {
        self.arrival_curve
    }

    pub closed spec fn periodic(&self) -> Option<DiffPeriodicExtractor> {
        self.periodic
    }

    pub open spec fn wf(&self) -> bool {
        &&& self.wcet().spec_tracker().wf()
        &&& self.arrival_curve().wf()
        &&& (self.periodic() matches Some(p) ==> p.wf())
    }

    /// The extractors as `new` makes them for `sep`.
    pub open spec fn spec_fresh(&self, sep: JobSeparator, wcet_n_max_len: usize, arrival_curve_max_len: usize) -> bool {
        &&& self.wf()
        &&& self.wcet().spec_tracker().bound() == wcet_n_max_len
        &&& self.wcet().spec_tracker().seen() == Seq::<u64>::empty()
        &&& self.suspension().spec_max() is None
        &&& self.bsss().bag() == Map::<usize, Vec<(u64, u64)>>::empty()
        &&& self.bsss().spec_capacity() == 16
        &&& self.bsss().spec_should_extract()
        &&& self.count().spec_count() == 0
        &&& self.arrival_curve().depth() == arrival_curve_max_len - 1
        &&& self.arrival_curve().seen() == Seq::<u64>::empty()
        &&& if spec_period_source(sep) == PeriodSource::OnArrival {
            &&& self.periodic() matches Some(p)
            &&& p.spec_offset() is None
            &&& p.spec_last_arrival() is None
            &&& p.spec_max_jitter() is None
            &&& p.spec_period() is None
            &&& p.spec_should_update()
        } else {
            self.periodic() is None
        }
    }

    /// What `update` needs to take `job`, whose processor time is `rt`: the
    /// sums of execution times stay within `u64`, the count within
    /// `usize`, and its arrival comes in order for the arrival curve and,
    /// while it detects, the periodic detector.
    pub open spec fn spec_can_update(&self, rt: u64, job: Job) -> bool {
        &&& ({
            let h = self.wcet().spec_tracker().seen().push(rt);
            last_sum(
                h,
                if h.len() <= self.wcet().spec_tracker().bound() {
                    h.len() as int
                } else {
                    self.wcet().spec_tracker().bound() as int
                },
            ) <= u64::MAX
        })
        &&& self.count().spec_count() < usize::MAX
        &&& self.arrival_curve().spec_accepts_arrival(spec_arrival(job))
        &&& (self.periodic() matches Some(p) ==> (p.spec_should_update() ==> (p.spec_last_arrival() matches Some(
            l,
        ) ==> l <= spec_arrival(job))))
    }

    /// `next` is `self` once every extractor took `job`, on timeline `t`.
    pub open spec fn spec_updated(&self, next: Self, t: Timeline, job: Job) -> bool {
        let rt = spec_rt_time(t, job);
        let su = spec_su_time(t, job);
        &&& next.wf()
        &&& spec_bag_updated(self.bsss(), next.bsss(), t, job)
        &&& next.wcet().spec_tracker().bound() == self.wcet().spec_tracker().bound()
        &&& next.wcet().spec_tracker().seen() == self.wcet().spec_tracker().seen().push(rt)
        &&& next.suspension().spec_max() == Some(
            match self.suspension().spec_max() {
                Some(m) => if m >= su {
                    m
                } else {
                    su
                },
                None => su,
            },
        )
        &&& next.count().spec_count() == self.count().spec_count() + 1
        &&& next.arrival_curve().depth() == self.arrival_curve().depth()
        &&& next.arrival_curve().seen() == self.arrival_curve().seen().push(spec_arrival(job))
        &&& match (self.periodic(), next.periodic()) {
            (Some(p), Some(q)) => spec_periodic_updated(p, q, job),
            (None, None) => true,
            _ => false,
        }
    }

    /// `next` is `self` after `try_update` with `job` on `t`: updated when
    /// it can take the job, unchanged otherwise.
    pub open spec fn spec_fed(&self, next: Self, t: Timeline, job: Job) -> bool {
        if self.spec_can_update(spec_rt_time(t, job), job) {
            self.spec_updated(next, t, job)
        } else {
            next == *self
        }
    }

    /// The extractors of a new separator `sep`: the arrival curve spans up
    /// to `arrival_curve_max_len` arrivals, the execution times up to
    /// `wcet_n_max_len` jobs, and the periods are detected on arrival only
    /// for separators that give them (see `period_source`).
    pub fn new(sep: &JobSeparator, wcet_n_max_len: usize, arrival_curve_max_len: usize) -> (r: Self)
        requires
            arrival_curve_max_len >= 1,
        ensures
            r.spec_fresh(*sep, wcet_n_max_len, arrival_curve_max_len),
    {
        let periodic = match period_source(sep) {
            PeriodSource::OnArrival => Some(DiffPeriodicExtractor::new()),
            PeriodSource::OnRelease => None,
        };
        Self {
            wcet: ExecutionTime::new(wcet_n_max_len),
            suspension: DynamicSelfSuspension::new(),
            bsss: BagOfSegmentedSelfSuspension::new(),
            count: JobCounter::new(),
            arrival_curve: ArrivalCurve::new(arrival_curve_max_len),
            periodic,
        }
    }

    /// Whether `update` can take `job`: see `spec_can_update`.
    pub fn can_update(&self, job: &Job, timeline: &mut Timeline) -> (r: bool)
        requires
            self.wf(),
            old(timeline).wf(),
        ensures
            final(timeline).wf(),
            spec_same(old(timeline).rt(), final(timeline).rt()),
            spec_same(old(timeline).su(), final(timeline).su()),
            r == self.spec_can_update(spec_rt_time(*old(timeline), *job), *job),
    {
        let t = job.processor_time(timeline);
        if !self.wcet.can_record(t) {
            return false;
        }
        if self.count.get() == usize::MAX {
            return false;
        }
        if !self.arrival_curve.accepts(job) {
            return false;
        }
        match &self.periodic {
            Some(p) => p.accepts(job),
            None => true,
        }
    }

    /// Records `job` in every extractor.
    pub fn update(&mut self, job: &Job, timeline: &mut Timeline)
        requires
            old(self).wf(),
            old(timeline).wf(),
            old(self).spec_can_update(spec_rt_time(*old(timeline), *job), *job),
        ensures
            final(timeline).wf(),
            spec_same(old(timeline).rt(), final(timeline).rt()),
            spec_same(old(timeline).su(), final(timeline).su()),
            old(self).spec_updated(*final(self), *old(timeline), *job),
    {
        let ghost t0 = *timeline;
        let ghost b = spec_boundaries(*job);
        self.bsss.update(timeline, job);
        proof {
            lemma_same_coverage(t0.rt(), timeline.rt(), b);
            lemma_same_coverage(t0.su(), timeline.su(), b);
        }
        self.wcet.update(timeline, job);
        proof {
            lemma_same_coverage(t0.rt(), timeline.rt(), b);
            lemma_same_coverage(t0.su(), timeline.su(), b);
        }
        self.suspension.update(timeline, job);
        self.count.update(job);
        self.arrival_curve.update(job);
        match &mut self.periodic {
            Some(p) => p.update(job),
            None => {},
        }
    }

    /// Records `job` in every extractor when they can take it (see
    /// `spec_can_update`); returns whether they did.
    pub fn try_update(&mut self, job: &Job, timeline: &mut Timeline) -> (r: bool)
        requires
            old(self).wf(),
            old(timeline).wf(),
        ensures
            final(timeline).wf(),
            spec_same(old(timeline).rt(), final(timeline).rt()),
            spec_same(old(timeline).su(), final(timeline).su()),
            r == old(self).spec_can_update(spec_rt_time(*old(timeline), *job), *job),
            old(self).spec_fed(*final(self), *old(timeline), *job),
    {
        let ghost t0 = *timeline;
        let ghost b = spec_boundaries(*job);
        if !self.can_update(job, timeline) {
            return false;
        }
        let ghost t1 = *timeline;
        proof {
            lemma_same_coverage(t0.rt(), t1.rt(), b);
            lemma_same_coverage(t0.su(), t1.su(), b);
        }
        self.update(job, timeline);
        proof {
            assert(spec_bag_updated(old(self).bsss(), self.bsss(), t1, *job));
            lemma_bag_updated_same(old(self).bsss(), self.bsss(), t1, t0, *job);
        }
        true
    }

    /// The arrival models found: the arrival curve, then the period on
    /// arrival, each when there is one.
    pub fn arrival_models(&self) -> (r: Vec<ArrivalModel>)
        ensures
            ({
                let has_curve = !(forall|i: int|
                    0 <= i < self.arrival_curve().spec_dmaxs().len()
                        ==> self.arrival_curve().spec_dmaxs()[i] == 0);
                let periodic = match self.periodic() {
                    Some(p) => spec_periodic_model(p),
                    None => None,
                };
                &&& r@.len() == (if has_curve { 1int } else { 0 }) + (if periodic is Some { 1int } else { 0 })
                &&& has_curve ==> (r@[0] matches ArrivalModel::ArrivalCurve { dmins, dmaxs } && dmins@
                    == self.arrival_curve().spec_dmins() && dmaxs@ == self.arrival_curve().spec_dmaxs())
                &&& periodic matches Some(m) ==> r@.last() == m
            }),
    {
        let mut ret: Vec<ArrivalModel> = Vec::new();
        let c = self.arrival_curve.extract();
        let ghost has_curve = !(forall|i: int|
            0 <= i < self.arrival_curve().spec_dmaxs().len() ==> self.arrival_curve().spec_dmaxs()[i] == 0);
        assert(self.arrival_curve.spec_dmaxs() == self.arrival_curve().spec_dmaxs());
        assert(c is Some ==> has_curve);
        assert(has_curve ==> c is Some);
        match c {
            Some(c) => ret.push(c),
            None => {},
        }
        assert(ret@.len() == (if has_curve { 1int } else { 0 }));
        match &self.periodic {
            Some(p) => {
                let m = p.extract();
                assert(m == spec_periodic_model(*p));
                match m {
                    Some(m) => ret.push(m),
                    None => {},
                }
            },
            None => {},
        }
        ret
    }

    /// The largest processor times of 1, 2, ... consecutive jobs.
    pub fn wcets(&self) -> (r: Vec<u64>)
        requires
            self.wf(),
        ensures
            r@.len() == self.wcet().spec_tracker().spec_tracked(),
            forall|k: int| 0 <= k < r@.len() ==> #[trigger] r@[k] == super::execution::max_window(
                self.wcet().spec_tracker().seen(),
                k + 1,
            ),
    {
        self.wcet.wcets()
    }

    /// The longest suspension time of a job, 0 if none.
    pub fn max_suspension(&self) -> (r: u64)
        ensures
            r == match self.suspension().spec_max() {
                Some(m) => m,
                None => 0,
            },
    {
        self.suspension.get()
    }

    /// The number of jobs recorded.
    pub fn job_count(&self) -> (r: usize)
        ensures
            r == self.count().spec_count(),
    {
        self.count.get()
    }

    /// The segmented suspensions, unless given up.
    pub fn segments(&self) -> (r: Option<std::collections::BTreeMap<usize, Vec<(u64, u64)>>>)
        ensures
            self.bsss().spec_should_extract() && !self.bsss().bag().is_empty() ==> (r matches Some(b) && b@
                == self.bsss().bag()),
            !(self.bsss().spec_should_extract() && !self.bsss().bag().is_empty()) ==> r is None,
    {
        self.bsss.extract()
    }
}

/// The bag update reads only the intervals a timeline records.
proof fn lemma_bag_updated_same(
    o: BagOfSegmentedSelfSuspension,
    n: BagOfSegmentedSelfSuspension,
    t: Timeline,
    u: Timeline,
    job: Job,
)
    requires
        spec_same(u.rt(), t.rt()),
        spec_same(u.su(), t.su()),
        spec_bag_updated(o, n, t, job),
    ensures
        spec_bag_updated(o, n, u, job),
{
}

/// `spec_fed` reads only the intervals a timeline records.
proof fn lemma_fed_same(x: JobSeparatorExtractors, y: JobSeparatorExtractors, t: Timeline, u: Timeline, job: Job)
    requires
        spec_same(t.rt(), u.rt()),
        spec_same(t.su(), u.su()),
        x.spec_fed(y, t, job),
    ensures
        x.spec_fed(y, u, job),
{
    lemma_same_coverage(t.rt(), u.rt(), spec_boundaries(job));
    lemma_same_coverage(t.su(), u.su(), spec_boundaries(job));
    if x.spec_can_update(spec_rt_time(t, job), job) {
        lemma_bag_updated_same(x.bsss(), y.bsss(), t, u, job);
    }
}

/// The extractors `d2` are `d` once `job` of separator `sep` was offered
/// on timeline `t`: those of `sep` (made new as `new` makes them when
/// `sep` is new, and then added last) take it as `try_update` does; the
/// others stay.
pub open spec fn spec_feed_one(
    d: Seq<(JobSeparator, JobSeparatorExtractors)>,
    d2: Seq<(JobSeparator, JobSeparatorExtractors)>,
    t: Timeline,
    sep: JobSeparator,
    job: Job,
    wcet_n_max_len: usize,
    arrival_curve_max_len: usize,
) -> bool {
    let i = find_key(d, sep);
    if i >= 0 {
        &&& d2.len() == d.len()
        &&& forall|k: int| 0 <= k < d.len() && k != i ==> #[trigger] d2[k] == d[k]
        &&& d2[i].0 == sep
        &&& d[i].1.spec_fed(d2[i].1, t, job)
    } else {
        &&& d2.len() == d.len() + 1
        &&& forall|k: int| 0 <= k < d.len() ==> #[trigger] d2[k] == d[k]
        &&& d2[d.len() as int].0 == sep
        &&& exists|x: JobSeparatorExtractors|
            #[trigger] x.spec_fresh(sep, wcet_n_max_len, arrival_curve_max_len) && x.spec_fed(
                d2[d.len() as int].1,
                t,
                job,
            )
    }
}

/// The steps `trace` go from extractors to extractors as the jobs `js`
/// are offered in order on timeline `t`: one more step than jobs, each
/// taking one job.
pub open spec fn spec_feed_trace(
    trace: Seq<Seq<(JobSeparator, JobSeparatorExtractors)>>,
    t: Timeline,
    js: Seq<(JobSeparator, Job)>,
    wcet_n_max_len: usize,
    arrival_curve_max_len: usize,
) -> bool {
    &&& trace.len() == js.len() + 1
    &&& forall|k: int|
        0 <= k < js.len() ==> spec_feed_one(
            trace[k],
            trace[k + 1],
            t,
            (#[trigger] js[k]).0,
            js[k].1,
            wcet_n_max_len,
            arrival_curve_max_len,
        )
}

/// The models of one job separator, as reported.
#[derive(Debug, PartialEq)]
pub struct JobSeparatorModels {
    pub separator: JobSeparator,
    /// The number of jobs observed.
    pub count: usize,
    /// `wcet_n[n - 1]`: the largest processor time of `n` consecutive jobs.
    pub wcet_n: Vec<u64>,
    /// The longest suspension time of a job.
    pub dynamic_self_suspension: u64,
    /// By number of segments, the largest (suspension, execution) segments.
    pub segmented_self_suspensions: Option<std::collections::BTreeMap<usize, Vec<(u64, u64)>>>,
    /// The arrival models found.
    pub arrival_models: Vec<ArrivalModel>,
}

impl JobSeparatorExtractors {
    /// The models of these extractors, for separator `sep`.
    pub fn models(&self, sep: &JobSeparator) -> (r: JobSeparatorModels)
        requires
            self.wf(),
        ensures
            r.separator == *sep,
            r.count == self.count().spec_count(),
            r.wcet_n@.len() == self.wcet().spec_tracker().spec_tracked(),
            forall|k: int| 0 <= k < r.wcet_n@.len() ==> #[trigger] r.wcet_n@[k] == super::execution::max_window(
                self.wcet().spec_tracker().seen(),
                k + 1,
            ),
            r.dynamic_self_suspension == match self.suspension().spec_max() {
                Some(m) => m,
                None => 0,
            },
            self.bsss().spec_should_extract() && !self.bsss().bag().is_empty() ==> (r.segmented_self_suspensions
                matches Some(b) && b@ == self.bsss().bag()),
            !(self.bsss().spec_should_extract() && !self.bsss().bag().is_empty()) ==> r.segmented_self_suspensions
                is None,
    {
        JobSeparatorModels {
            separator: *sep,
            count: self.job_count(),
            wcet_n: self.wcets(),
            dynamic_self_suspension: self.max_suspension(),
            segmented_self_suspensions: self.segments(),
            arrival_models: self.arrival_models(),
        }
    }
}

/// Task-level model extraction for one thread: its events go to the event
/// rate, the RBF extractor and the intermediate representation; the jobs
/// the latter completes go to the extractors of their separator.
pub struct ThreadTaskModelExtractor {
    event_rate: EventRate,
    rbf: RbfExtractor,
    extractors: Dispatcher<JobSeparator, JobSeparatorExtractors>,
    ir: Ir,
    wcet_n_max_len: usize,
    arrival_curve_max_len: usize,
    fed_on: Ghost<Timeline>,
    feed_trace: Ghost<Seq<Seq<(JobSeparator, JobSeparatorExtractors)>>>,
    cleaned_from: Ghost<Timeline>,
}

impl ThreadTaskModelExtractor {
    pub closed spec fn event_rate(&self) -> EventRate {
        self.event_rate
    }

    pub closed spec fn rbf(&self) -> RbfExtractor {
        self.rbf
    }

    /// The extractors of each separator met, in the order met.
    pub closed spec fn extractors(&self) -> Seq<(JobSeparator, JobSeparatorExtractors)> {
        self.extractors.entries()
    }

    pub closed spec fn ir(&self) -> Ir {
        self.ir
    }

    pub closed spec fn spec_wcet_n_max_len(&self) -> usize {
        self.wcet_n_max_len
    }

    pub closed spec fn spec_arrival_curve_max_len(&self) -> usize {
        self.arrival_curve_max_len
    }

    /// The timeline on which the jobs of the last event were offered to
    /// the extractors.
    pub closed spec fn fed_on(&self) -> Timeline {
        self.fed_on@
    }

    /// The extractors before and after each job of the last event.
    pub closed spec fn feed_trace(&self) -> Seq<Seq<(JobSeparator, JobSeparatorExtractors)>> {
        self.feed_trace@
    }

    /// The timeline the last cleaning started from.
    pub closed spec fn cleaned_from(&self) -> Timeline {
        self.cleaned_from@
    }

    pub closed spec fn wf(&self) -> bool {
        &&& self.ir.wf()
        &&& self.rbf.wf()
        &&& self.extractors.wf()
        &&& forall|k: int| 0 <= k < self.extractors.entries().len() ==> (#[trigger] self.extractors.entries()[k]).1.wf()
        &&& self.arrival_curve_max_len >= 1
    }

    /// An extractor with the RBF extractor `rbf`; the arrival curves of
    /// its separators span up to `arrival_curve_max_len` arrivals, their
    /// execution times up to `wcet_n_max_len` jobs.
    pub fn new(wcet_n_max_len: usize, arrival_curve_max_len: usize, rbf: RbfExtractor) -> (r: Self)
        requires
            arrival_curve_max_len >= 1,
            rbf.wf(),
        ensures
            r.wf(),
            r.rbf() == rbf,
            r.extractors() == Seq::<(JobSeparator, JobSeparatorExtractors)>::empty(),
            r.spec_wcet_n_max_len() == wcet_n_max_len,
            r.spec_arrival_curve_max_len() == arrival_curve_max_len,
            r.event_rate().spec_count() == 0,
            r.ir().tracker().separations().len() == 0,
            r.ir().tracker().matcher().buffered() == seq![TraceEvent::spec_start_of_trace()],
            r.ir().tracker().matcher().started(),
            r.ir().tl().rt().plain_seq().len() == 0,
            r.ir().tl().rt().blocks().len() == 0,
            r.ir().tl().rt().current() is None,
            r.ir().tl().su().plain_seq().len() == 0,
            r.ir().tl().su().blocks().len() == 0,
            r.ir().tl().su().current() is None,
    {
        let ir = Ir::new();
        let ghost t = ir.tl();
        Self {
            event_rate: EventRate::new(),
            rbf,
            extractors: Dispatcher::new(),
            ir,
            wcet_n_max_len,
            arrival_curve_max_len,
            fed_on: Ghost(t),
            feed_trace: Ghost(Seq::empty()),
            cleaned_from: Ghost(t),
        }
    }

    /// What `consume_event` needs: the timeline takes the event, the RBF
    /// extractor can take it, and the event count stays within `usize`.
    pub open spec fn spec_can_consume(&self, event: TraceEvent) -> bool {
        &&& self.ir().tl().spec_accepts(event)
        &&& self.rbf().spec_can_update(event)
        &&& self.event_rate().spec_count() < usize::MAX
    }

    /// Consumes an event of the thread: it goes to the event rate, to the
    /// RBF extractor and to the intermediate representation; each job the
    /// latter completes is then offered, in order, to the extractors of
    /// its separator, made new for a separator not met before; last, the
    /// timeline is cleaned.
    pub fn consume_event(&mut self, event: TraceEvent)
        requires
            old(self).wf(),
            old(self).spec_can_consume(event),
        ensures
            final(self).wf(),
            final(self).spec_wcet_n_max_len() == old(self).spec_wcet_n_max_len(),
            final(self).spec_arrival_curve_max_len() == old(self).spec_arrival_curve_max_len(),
            final(self).event_rate().spec_count() == old(self).event_rate().spec_count() + 1,
            final(self).event_rate().spec_first() == if old(self).event_rate().spec_count() == 0 {
                event.ts
            } else {
                old(self).event_rate().spec_first()
            },
            final(self).event_rate().spec_last() == if event.ts != 0 {
                event.ts
            } else {
                old(self).event_rate().spec_last()
            },
            old(self).rbf().spec_updated(final(self).rbf(), event),
            ExecutionLayer::spec_step(old(self).ir().tl().rt(), event, final(self).fed_on().rt()),
            SuspensionLayer::spec_step(old(self).ir().tl().su(), event, final(self).fed_on().su()),
            final(self).ir().tracker().separations() == old(self).ir().spec_separations_after(event),
            spec_feed_trace(
                final(self).feed_trace(),
                final(self).fed_on(),
                old(self).ir().spec_jobs(event),
                old(self).spec_wcet_n_max_len(),
                old(self).spec_arrival_curve_max_len(),
            ),
            final(self).feed_trace()[0] == old(self).extractors(),
            final(self).feed_trace().last() == final(self).extractors(),
            spec_same(final(self).fed_on().rt(), final(self).cleaned_from().rt()),
            spec_same(final(self).fed_on().su(), final(self).cleaned_from().su()),
            spec_try_cleaned(final(self).cleaned_from(), final(self).ir().tl(), final(self).ir().tracker()),
            final(self).ir().tl().rt().current() == final(self).cleaned_from().rt().current(),
            final(self).ir().tl().su().current() == final(self).cleaned_from().su().current(),
    {
        self.event_rate.update(&event);
        self.rbf.update(&event);
        let mut jobs: Vec<(JobSeparator, Job)> = Vec::new();
        self.ir.consume_event(event, &mut jobs);
        let ghost t0 = self.ir.tl();
        let ghost d0 = self.extractors.entries();
        let ghost tr = self.ir.tracker();
        let ghost js = jobs@;
        let ghost rbf1 = self.rbf;
        let ghost er1 = self.event_rate;
        self.fed_on = Ghost(t0);
        let ghost mut trace = seq![d0];
        let n = self.wcet_n_max_len;
        let ac = self.arrival_curve_max_len;
        let mut i: usize = 0;
        while i < jobs.len()
            invariant
                0 <= i <= js.len(),
                js == jobs@,
                n == self.wcet_n_max_len,
                ac == self.arrival_curve_max_len,
                ac >= 1,
                self.ir.wf(),
                self.ir.tracker() == tr,
                spec_same(t0.rt(), self.ir.tl().rt()),
                spec_same(t0.su(), self.ir.tl().su()),
                self.extractors.wf(),
                forall|k: int| 0 <= k < self.extractors.entries().len() ==> (#[trigger] self.extractors.entries()[k]).1.wf(),
                trace.len() == i + 1,
                trace[0] == d0,
                trace.last() == self.extractors.entries(),
                forall|k: int|
                    0 <= k < i ==> spec_feed_one(trace[k], trace[k + 1], t0, (#[trigger] js[k]).0, js[k].1, n, ac),
                self.fed_on@ == t0,
                self.rbf == rbf1,
                self.event_rate == er1,
            decreases js.len() - i,
        {
            let (sep, job) = jobs[i];
            let ghost dm = self.extractors.entries();
            let ghost tm = self.ir.tl();
            proof {
                lemma_find_key(dm, sep);
            }
            let tl = self.ir.timeline_mut();
            match self.extractors.get_mut(&sep) {
                Some(x) => {
                    x.try_update(&job, tl);
                },
                None => {
                    let mut x = JobSeparatorExtractors::new(&sep, n, ac);
                    let ghost x0 = x;
                    x.try_update(&job, tl);
                    proof {
                        lemma_fed_same(x0, x, tm, t0, job);
                        assert(x0.spec_fresh(sep, n, ac) && x0.spec_fed(x, t0, job));
                    }
                    self.extractors.insert_new(sep, x);
                },
            }
            proof {
                let d2 = self.extractors.entries();
                let k = find_key(dm, sep);
                if k >= 0 {
                    lemma_fed_same(dm[k].1, d2[k].1, tm, t0, job);
                }
                assert(spec_feed_one(dm, d2, t0, sep, job, n, ac));
                assert(js[i as int] == (sep, job));
                trace = trace.push(d2);
            }
            i += 1;
        }
        self.feed_trace = Ghost(trace);
        self.cleaned_from = Ghost(self.ir.tl());
        self.ir.clean();
    }

    /// True when no RBF step and no job separator were found.
    pub fn is_empty(&self) -> (r: bool)
        ensures
            r == ((!self.rbf().spec_enabled() || self.rbf().steps().len() == 0) && self.extractors().len() == 0),
    {
        self.rbf.is_empty() && self.extractors.is_empty()
    }

    /// Whether the models of the thread are reported: unless every thread
    /// is, one with no model is not; and unless best-effort threads are
    /// traced, only one known to run under a real-time policy (`rt_policy`
    /// is `None` when the policy is unknown).
    pub fn should_report(&self, all_threads: bool, trace_cfs: bool, rt_policy: Option<bool>) -> (r: bool)
        ensures
            r == ((all_threads || !((!self.rbf().spec_enabled() || self.rbf().steps().len() == 0)
                && self.extractors().len() == 0)) && (trace_cfs || rt_policy == Some(true))),
    {
        if !all_threads && self.is_empty() {
            return false;
        }
        match rt_policy {
            Some(is_rt) => trace_cfs || is_rt,
            None => trace_cfs,
        }
    }

    /// What `flush` needs: see `RbfExtractor::flush`.
    pub open spec fn spec_can_flush(&self) -> bool {
        self.rbf().spec_enabled() && self.rbf().window().aggregator().spec_last() is Some ==> ({
            let w = self.rbf().window().window().push(self.rbf().window().aggregator().spec_last()->0);
            &&& self.rbf().slots() + w.len() < u32::MAX
            &&& super::rbf::window_fits(w)
        })
    }

    /// Pushes the demand the RBF extractor still holds into its steps. The
    /// periodic detectors on arrival hold nothing back.
    pub fn flush(&mut self)
        requires
            old(self).wf(),
            old(self).spec_can_flush(),
        ensures
            final(self).wf(),
            final(self).extractors() == old(self).extractors(),
            final(self).ir() == old(self).ir(),
            final(self).event_rate() == old(self).event_rate(),
            final(self).spec_wcet_n_max_len() == old(self).spec_wcet_n_max_len(),
            final(self).spec_arrival_curve_max_len() == old(self).spec_arrival_curve_max_len(),
            final(self).rbf().wf(),
    {
        self.rbf.flush();
    }

    /// The RBF extractor.
    pub fn rbf_extractor(&self) -> (r: &RbfExtractor)
        ensures
            *r == self.rbf(),
    {
        &self.rbf
    }

    /// The event rate.
    pub fn event_rate_tracker(&self) -> (r: &EventRate)
        ensures
            *r == self.event_rate(),
    {
        &self.event_rate
    }

    /// Whether the timeline takes `event`, as `consume_event` needs.
    pub fn accepts(&self, event: &TraceEvent) -> (r: bool)
        requires
            self.wf(),
        ensures
            r == self.ir().tl().spec_accepts(*event),
    {
        self.ir.accepts(event)
    }

    /// The models of each separator met, in the order met.
    pub fn separator_models(&self) -> (r: Vec<JobSeparatorModels>)
        requires
            self.wf(),
        ensures
            r@.len() == self.extractors().len(),
            forall|k: int| 0 <= k < r@.len() ==> (#[trigger] r@[k]).separator == self.extractors()[k].0,
    {
        let items = self.extractors.items();
        let mut ret: Vec<JobSeparatorModels> = Vec::new();
        let mut k: usize = 0;
        while k < items.len()
            invariant
                items@ == self.extractors.entries(),
                forall|j: int| 0 <= j < items@.len() ==> (#[trigger] items@[j]).1.wf(),
                0 <= k <= items@.len(),
                ret@.len() == k,
                forall|j: int| 0 <= j < k ==> (#[trigger] ret@[j]).separator == items@[j].0,
            decreases items@.len() - k,
        {
            let (sep, x) = &items[k];
            ret.push(x.models(sep));
            k += 1;
        }
        ret
    }
}

} // verus!
