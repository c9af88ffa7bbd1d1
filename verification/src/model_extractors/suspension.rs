//! Self-suspension models.

use std::cmp::Ordering;
use std::collections::BTreeMap;

use crate::interval::{isects, rank, sum_len, Bound, Interval};
use crate::ir::timeline::layers::base::{all_finite, lemma_sum_len_prefix, open_part, spec_same};
use crate::ir::timeline::Timeline;
use crate::job::{spec_boundaries, spec_release_jitter, Job};
use crate::utils::{InterleaveBy, UpperBoundTracker};
use vstd::prelude::*;

verus! {

broadcast use vstd::std_specs::btree::group_btree_axioms, vstd::laws_cmp::group_laws_cmp;

/// Dynamic self-suspension model: the longest suspension time of a job.
pub struct DynamicSelfSuspension {
    tracker: UpperBoundTracker,
}

impl DynamicSelfSuspension {
    pub closed spec fn spec_max(&self) -> Option<u64> {
        self.tracker.spec_get()
    }

    pub fn new() -> (r: Self)
        ensures
            r.spec_max() is None,
    {
        Self { tracker: UpperBoundTracker::new() }
    }

    /// Records the suspension time of `job`; returns the longest so far.
    pub fn update(&mut self, timeline: &mut Timeline, job: &Job) -> (r: u64)
        requires
            old(timeline).wf(),
        ensures
            final(timeline).wf(),
            spec_same(old(timeline).rt(), final(timeline).rt()),
            spec_same(old(timeline).su(), final(timeline).su()),
            ({
                let t = old(timeline).su().spec_coverage(spec_boundaries(*job)) as u64;
                &&& r == match old(self).spec_max() {
                    Some(m) => if m >= t {
                        m
                    } else {
                        t
                    },
                    None => t,
                }
                &&& final(self).spec_max() == Some(r)
            }),
    {
        let t = job.suspension_time(timeline);
        self.tracker.update(t)
    }

    /// The longest suspension time seen, 0 if none.
    pub fn get(&self) -> (r: u64)
        ensures
            r == match self.spec_max() {
                Some(m) => m,
                None => 0,
            },
    {
        match self.tracker.get() {
            Some(m) => m,
            None => 0,
        }
    }
}

impl Default for DynamicSelfSuspension {
    fn default() -> (r: Self)
        ensures
            r.spec_max() is None,
    {
        Self::new()
    }
}

/// A part of a job: running or suspended during an interval.
#[derive(PartialEq, Eq, Clone, Copy, Debug, Structural)]
pub enum Segment {
    Execution(Interval),
    SelfSuspension(Interval),
}

pub open spec fn segment_start(s: Segment) -> Bound {
    match s {
        Segment::Execution(a) => a.a,
        Segment::SelfSuspension(a) => a.a,
    }
}

pub open spec fn segment_interval(s: Segment) -> Interval {
    match s {
        Segment::Execution(a) => a,
        Segment::SelfSuspension(a) => a,
    }
}

/// Segments are ordered by their start.
pub open spec fn segment_after(a: Segment, b: Segment) -> bool {
    rank(segment_start(a)) > rank(segment_start(b))
}

/// Orders segments by their start.
pub fn segment_order(a: &Segment, b: &Segment) -> (o: Ordering)
    ensures
        (o == Ordering::Greater) == segment_after(*a, *b),
{
    let sa = match a {
        Segment::Execution(i) => i.lower_bound(),
        Segment::SelfSuspension(i) => i.lower_bound(),
    };
    let sb = match b {
        Segment::Execution(i) => i.lower_bound(),
        Segment::SelfSuspension(i) => i.lower_bound(),
    };
    if crate::interval::bound_lt(sb, sa) {
        Ordering::Greater
    } else if crate::interval::bound_lt(sa, sb) {
        Ordering::Less
    } else {
        Ordering::Equal
    }
}

/// Merges two sequences of segments by start; on a tie the first sequence
/// goes first.
pub open spec fn spec_merge(xs: Seq<Segment>, ys: Seq<Segment>) -> Seq<Segment>
    decreases xs.len() + ys.len(),
{
    if xs.len() == 0 {
        ys
    } else if ys.len() == 0 {
        xs
    } else if segment_after(xs[0], ys[0]) {
        seq![ys[0]] + spec_merge(xs, ys.drop_first())
    } else {
        seq![xs[0]] + spec_merge(xs.drop_first(), ys)
    }
}

/// The (suspension, execution) pairs of a sequence of segments: each
/// suspension closes the pair of the execution time before it and opens
/// the next one. `ps` and `pe` are the open pair.
pub open spec fn spec_pairs(segs: Seq<Segment>, ps: u64, pe: int) -> Seq<(u64, u64)>
    decreases segs.len(),
{
    if segs.len() == 0 {
        if pe > 0 {
            seq![(ps, pe as u64)]
        } else {
            Seq::empty()
        }
    } else {
        match segs[0] {
            Segment::Execution(i) => spec_pairs(segs.drop_first(), ps, pe + i.spec_length()),
            Segment::SelfSuspension(i) => seq![(ps, pe as u64)] + spec_pairs(
                segs.drop_first(),
                i.spec_length() as u64,
                0,
            ),
        }
    }
}

/// `spec_pairs` with the open execution time given as a `u64`.
pub open spec fn pairs_from(segs: Seq<Segment>, ps: u64, pe: u64) -> Seq<(u64, u64)> {
    spec_pairs(segs, ps, pe as int)
}

proof fn lemma_pairs_start(ev: Seq<Interval>)
    requires
        forall|k: int| 0 <= k < ev.len() ==> rank((#[trigger] ev[k]).a) < rank(ev[k].b),
    ensures
        sum_len(ev.take(0)) == 0,
        0 <= sum_len(ev),
{
    assert(ev.take(0).len() == 0);
    lemma_sum_len_prefix(ev, 0);
}

pub open spec fn spec_as_executions(s: Seq<Interval>) -> Seq<Segment> {
    s.map_values(|i: Interval| Segment::Execution(i))
}

pub open spec fn spec_as_suspensions(s: Seq<Interval>) -> Seq<Segment> {
    s.map_values(|i: Interval| Segment::SelfSuspension(i))
}

/// The running and suspension intervals of `job` in `timeline`.
pub open spec fn spec_job_execs(timeline: Timeline, job: Job) -> Seq<Interval> {
    isects(timeline.rt().plain_seq(), spec_boundaries(job)) + open_part(timeline.rt().current(), spec_boundaries(job))
}

pub open spec fn spec_job_susps(timeline: Timeline, job: Job) -> Seq<Interval> {
    let s = isects(timeline.su().plain_seq(), spec_boundaries(job)) + open_part(timeline.su().current(), spec_boundaries(job));
    if spec_release_jitter(job) > 0 && s.len() > 0 {
        s.skip(1)
    } else {
        s
    }
}

/// The (suspension, execution) pairs of `job`.
pub open spec fn spec_job_segments(timeline: Timeline, job: Job) -> Seq<(u64, u64)> {
    spec_pairs(
        spec_merge(
            spec_as_executions(spec_job_execs(timeline, job)),
            spec_as_suspensions(spec_job_susps(timeline, job)),
        ),
        spec_release_jitter(job),
        0,
    )
}

/// The pairs of `old` raised to those of `new` where both have one.
pub open spec fn spec_max_pairs(old: Seq<(u64, u64)>, new: Seq<(u64, u64)>) -> Seq<(u64, u64)> {
    Seq::new(
        old.len(),
        |i: int|
            if i < new.len() {
                (
                    if old[i].0 >= new[i].0 {
                        old[i].0
                    } else {
                        new[i].0
                    },
                    if old[i].1 >= new[i].1 {
                        old[i].1
                    } else {
                        new[i].1
                    },
                )
            } else {
                old[i]
            },
    )
}

/// Merging the segment pairs of a job into a bound: each bound component
/// becomes the larger of the bound and the job's, so it is at least both
/// and is one of them; bounds beyond the job's pairs stay.
pub proof fn law_max_pairs(old: Seq<(u64, u64)>, new: Seq<(u64, u64)>)
    ensures
        spec_max_pairs(old, new).len() == old.len(),
        forall|i: int|
            0 <= i < old.len() && i < new.len() ==> {
                let r = #[trigger] spec_max_pairs(old, new)[i];
                &&& r.0 >= old[i].0 && r.0 >= new[i].0
                &&& r.0 == old[i].0 || r.0 == new[i].0
                &&& r.1 >= old[i].1 && r.1 >= new[i].1
                &&& r.1 == old[i].1 || r.1 == new[i].1
            },
        forall|i: int| new.len() <= i < old.len() ==> #[trigger] spec_max_pairs(old, new)[i] == old[i],
{
}

pub const MAX_SEGMENTS: usize = 1024;

/// Bag-of-segmented-self-suspensions model: for each number of segments,
/// the longest suspension and execution of each segment.
pub struct BagOfSegmentedSelfSuspension {
    segments: BTreeMap<usize, Vec<(u64, u64)>>,
    capacity: usize,
    should_extract: bool,
}

/// What `BagOfSegmentedSelfSuspension::update` makes of `old_bag`, for
/// `job` on `timeline`.
pub open spec fn spec_bag_updated(
    old_bag: BagOfSegmentedSelfSuspension,
    new_bag: BagOfSegmentedSelfSuspension,
    timeline: Timeline,
    job: Job,
) -> bool {
    let o = old_bag;
    let segs = spec_job_segments(timeline, job);
    let m = segs.len() as usize;
    let compressed = !(timeline.rt().blocks().len() == 0 || rank(timeline.rt().blocks().last().0.b) < job.first_cycle)
        || !(timeline.su().blocks().len() == 0 || rank(timeline.su().blocks().last().0.b) < job.first_cycle);
    if !o.spec_should_extract() {
        new_bag == o
    } else if compressed || segs.len() > MAX_SEGMENTS {
        &&& !new_bag.spec_should_extract()
        &&& new_bag.bag() == o.bag()
        &&& new_bag.spec_capacity() == o.spec_capacity()
    } else if o.bag().contains_key(m) {
        &&& new_bag.spec_should_extract()
        &&& new_bag.spec_capacity() == o.spec_capacity()
        &&& new_bag.bag().dom() == o.bag().dom()
        &&& new_bag.bag()[m]@ == spec_max_pairs(o.bag()[m]@, segs)
        &&& forall|k: usize| k != m && #[trigger] o.bag().contains_key(k) ==> new_bag.bag()[k] == o.bag()[k]
    } else if o.bag().len() == o.spec_capacity() {
        &&& !new_bag.spec_should_extract()
        &&& new_bag.bag() == Map::<usize, Vec<(u64, u64)>>::empty()
        &&& new_bag.spec_capacity() == o.spec_capacity()
    } else {
        &&& new_bag.spec_should_extract()
        &&& new_bag.spec_capacity() == o.spec_capacity()
        &&& new_bag.bag().dom() == o.bag().dom().insert(m)
        &&& new_bag.bag()[m]@ == segs
        &&& forall|k: usize| k != m && #[trigger] o.bag().contains_key(k) ==> new_bag.bag()[k] == o.bag()[k]
    }
}

/// Once a job with `m` segment pairs `segs` is recorded and extraction goes
/// on, the bag holds a bound for `m` that is at least each of the job's
/// pairs, component by component, and no bound of the bag went down.
pub proof fn law_bag_bounds_jobs(
    o: BagOfSegmentedSelfSuspension,
    n: BagOfSegmentedSelfSuspension,
    t: Timeline,
    job: Job,
    segs: Seq<(u64, u64)>,
    m: usize,
)
    requires
        spec_bag_updated(o, n, t, job),
        o.spec_should_extract(),
        n.spec_should_extract(),
        segs == spec_job_segments(t, job),
        m == segs.len(),
    ensures
        n.bag().contains_key(m),
        forall|i: int|
            0 <= i < segs.len() && i < n.bag()[m]@.len() ==> (#[trigger] n.bag()[m]@[i]).0 >= segs[i].0
                && n.bag()[m]@[i].1 >= segs[i].1,
        !o.bag().contains_key(m) ==> n.bag()[m]@ == segs,
        o.bag().contains_key(m) ==> forall|i: int|
            0 <= i < n.bag()[m]@.len() ==> {
                let r = #[trigger] n.bag()[m]@[i];
                let b = o.bag()[m]@[i];
                if i < segs.len() {
                    &&& r.0 == b.0 || r.0 == segs[i].0
                    &&& r.1 == b.1 || r.1 == segs[i].1
                } else {
                    r == b
                }
            },
        forall|k: usize| #[trigger] o.bag().contains_key(k) && k != m ==> n.bag()[k] == o.bag()[k],
        forall|k: usize|
            #[trigger] o.bag().contains_key(k) ==> n.bag().contains_key(k) && n.bag()[k]@.len() == o.bag()[k]@.len(),
        forall|k: usize, i: int|
            o.bag().contains_key(k) && 0 <= i < o.bag()[k]@.len() ==> (#[trigger] n.bag()[k]@[i]).0 >= o.bag()[k]@[i].0
                && n.bag()[k]@[i].1 >= o.bag()[k]@[i].1,
{
    if o.bag().contains_key(m) {
        law_max_pairs(o.bag()[m]@, segs);
    }
    assert forall|k: usize, i: int|
        o.bag().contains_key(k) && 0 <= i < o.bag()[k]@.len() implies (#[trigger] n.bag()[k]@[i]).0
            >= o.bag()[k]@[i].0 && n.bag()[k]@[i].1 >= o.bag()[k]@[i].1 by {
        if k == m {
            law_max_pairs(o.bag()[m]@, segs);
            if i < segs.len() {
                assert(n.bag()[k]@[i] == spec_max_pairs(o.bag()[m]@, segs)[i]);
            }
        }
    }
}

impl BagOfSegmentedSelfSuspension {
    pub closed spec fn bag(&self) -> Map<usize, Vec<(u64, u64)>> {
        self.segments@
    }

    pub closed spec fn spec_capacity(&self) -> usize {
        self.capacity
    }

    pub closed spec fn spec_should_extract(&self) -> bool {
        self.should_extract
    }

    pub fn new() -> (r: Self)
        ensures
            r.bag() == Map::<usize, Vec<(u64, u64)>>::empty(),
            r.spec_capacity() == 16,
            r.spec_should_extract(),
    {
        Self::with_capacity(16)
    }

    pub fn with_capacity(capacity: usize) -> (r: Self)
        ensures
            r.bag() == Map::<usize, Vec<(u64, u64)>>::empty(),
            r.spec_capacity() == capacity,
            r.spec_should_extract(),
    {
        Self { capacity, segments: BTreeMap::new(), should_extract: true }
    }

    fn map_executions(v: Vec<Interval>) -> (r: Vec<Segment>)
        ensures
            r@ == spec_as_executions(v@),
    {
        let mut ret: Vec<Segment> = Vec::new();
        let mut i: usize = 0;
        while i < v.len()
            invariant
                0 <= i <= v@.len(),
                ret@ == spec_as_executions(v@.take(i as int)),
            decreases v@.len() - i,
        {
            ret.push(Segment::Execution(v[i]));
            i += 1;
            proof {
                assert(spec_as_executions(v@.take(i as int)) =~= spec_as_executions(v@.take(i - 1)).push(
                    Segment::Execution(v@[i - 1]),
                ));
            }
        }
        proof {
            assert(v@.take(v@.len() as int) == v@);
        }
        ret
    }

    fn map_suspensions(v: Vec<Interval>, skip: usize) -> (r: Vec<Segment>)
        ensures
            r@ == spec_as_suspensions(if skip <= v@.len() { v@.skip(skip as int) } else { Seq::empty() }),
    {
        let mut ret: Vec<Segment> = Vec::new();
        if skip > v.len() {
            proof {
                assert(ret@ =~= spec_as_suspensions(Seq::<Interval>::empty()));
            }
            return ret;
        }
        let mut i: usize = skip;
        proof {
            assert(v@.subrange(skip as int, skip as int) =~= Seq::<Interval>::empty());
            assert(ret@ =~= spec_as_suspensions(v@.subrange(skip as int, skip as int)));
        }
        while i < v.len()
            invariant
                skip <= i <= v@.len(),
                ret@ == spec_as_suspensions(v@.subrange(skip as int, i as int)),
            decreases v@.len() - i,
        {
            ret.push(Segment::SelfSuspension(v[i]));
            i += 1;
            proof {
                assert(spec_as_suspensions(v@.subrange(skip as int, i as int)) =~= spec_as_suspensions(
                    v@.subrange(skip as int, i - 1),
                ).push(Segment::SelfSuspension(v@[i - 1])));
            }
        }
        proof {
            assert(v@.subrange(skip as int, v@.len() as int) == v@.skip(skip as int));
        }
        ret
    }

    fn get_segments(timeline: &mut Timeline, job: &Job) -> (r: Vec<(u64, u64)>)
        requires
            old(timeline).wf(),
        ensures
            final(timeline).wf(),
            spec_same(old(timeline).rt(), final(timeline).rt()),
            spec_same(old(timeline).su(), final(timeline).su()),
            r@ == spec_job_segments(*old(timeline), *job),
    {
        let ghost t0 = *timeline;
        let range = job.boundaries();
        proof {
            t0.lemma_exec_bound(spec_boundaries(*job));
        }
        let exec_intervals = timeline.runtime_intervals(&range);
        let skip: usize = if job.release_jitter() > 0 {
            1
        } else {
            0
        };
        let susp_intervals = timeline.suspension_intervals(&range);
        let ghost ev = exec_intervals@;
        let ghost sv = susp_intervals@;
        let execs = Self::map_executions(exec_intervals);
        let susps = Self::map_suspensions(susp_intervals, skip);
        let ghost merged = spec_merge(execs@, susps@);
        let ghost full = pairs_from(merged, spec_release_jitter(*job), 0);
        proof {
            assert(susps@ =~= spec_as_suspensions(spec_job_susps(t0, *job)));
            assert(execs@ =~= spec_as_executions(spec_job_execs(t0, *job)));
            assert(merged.skip(0) == merged);
            assert(ev.skip(0) == ev);
            lemma_pairs_start(ev);
        }

        let order = |a: &Segment, b: &Segment| -> (o: Ordering)
            ensures
                (o == Ordering::Greater) == segment_after(*a, *b),
            { segment_order(a, b) };
        let mut segments = InterleaveBy::new(execs, susps, order);
        proof {
            assert forall|a: &Segment, b: &Segment| #[trigger] order.requires((a, b)) by {}
            assert forall|a: &Segment, b: &Segment, o: Ordering| #[trigger] order.ensures((a, b), o) implies ((
            o == Ordering::Greater) == segment_after(*a, *b)) by {}
        }
        let mut prev_exec: u64 = 0;
        let mut prev_susp: u64 = job.release_jitter();
        let mut new_segments: Vec<(u64, u64)> = Vec::new();
        let ghost mut taken: int = 0;
        let ghost mut ki: int = 0;
        loop
            invariant
                segments.wf(),
                segments.comparator() == order,
                forall|a: &Segment, b: &Segment| #[trigger] order.requires((a, b)),
                forall|a: &Segment, b: &Segment, o: Ordering| #[trigger] order.ensures((a, b), o) ==> ((o
                    == Ordering::Greater) == segment_after(*a, *b)),
                spec_merge(segments.rest_i(), segments.rest_j()) == merged.skip(taken),
                0 <= taken <= merged.len(),
                new_segments@ + pairs_from(merged.skip(taken), prev_susp, prev_exec) == full,
                0 <= ki <= ev.len(),
                segments.rest_i() == spec_as_executions(ev.skip(ki)),
                prev_exec <= sum_len(ev.take(ki)),
                sum_len(ev) <= u64::MAX,
                all_finite(ev),
                forall|k: int| 0 <= k < ev.len() ==> rank((#[trigger] ev[k]).a) < rank(ev[k].b),
                forall|k: int| 0 <= k < segments.rest_j().len() ==> (#[trigger] segments.rest_j()[k]) is SelfSuspension
                    && segment_interval(segments.rest_j()[k]).is_finite() && rank(segment_interval(segments.rest_j()[k]).a)
                    <= rank(segment_interval(segments.rest_j()[k]).b),
            ensures
                new_segments@ + pairs_from(Seq::<Segment>::empty(), prev_susp, prev_exec) == full,
            decreases merged.len() - taken,
        {
            let ghost ri = segments.rest_i();
            let ghost rj = segments.rest_j();
            proof {
                assert forall|a: &Segment, b: &Segment| #[trigger] segments.comparator().requires((a, b)) by {
                    assert(order.requires((a, b)));
                }
            }
            let next = segments.next_merged();
            proof {
                if ri.len() > 0 && rj.len() > 0 {
                    let o = choose|o: Ordering| #[trigger] order.ensures((&ri[0], &rj[0]), o) && if o
                        == Ordering::Greater {
                        next == Some(rj[0]) && segments.rest_i() == ri && segments.rest_j() == rj.drop_first()
                    } else {
                        next == Some(ri[0]) && segments.rest_i() == ri.drop_first() && segments.rest_j() == rj
                    };
                    assert((o == Ordering::Greater) == segment_after(ri[0], rj[0]));
                }
            }
            match next {
                None => {
                    proof {
                        assert(merged.skip(taken) =~= Seq::<Segment>::empty());
                    }
                    break;
                },
                Some(segment) => {
                    proof {
                        let m = merged.skip(taken);
                        assert(m.len() > 0);
                        assert(m[0] == segment);
                        assert(m.drop_first() == merged.skip(taken + 1));
                        assert(spec_merge(segments.rest_i(), segments.rest_j()) == m.drop_first());
                    }
                    match segment {
                        Segment::Execution(i) => {
                            proof {
                                assert(segments.rest_i() != ri);
                                assert(ri[0] == Segment::Execution(ev[ki]));
                                assert(ev.take(ki + 1).drop_last() == ev.take(ki));
                                assert(ev.take(ki + 1).last() == ev[ki]);
                                lemma_sum_len_prefix(ev, ki + 1);
                                assert(ev.skip(ki).drop_first() == ev.skip(ki + 1));
                                assert(spec_as_executions(ev.skip(ki)).drop_first() =~= spec_as_executions(ev.skip(ki + 1)));
                                ki = ki + 1;
                            }
                            prev_exec = prev_exec + i.duration_unwrap();
                        },
                        Segment::SelfSuspension(i) => {
                            proof {
                                assert(segments.rest_j() != rj);
                                assert(segments.rest_i() == ri);
                                assert forall|k: int| 0 <= k < segments.rest_j().len() implies (#[trigger] segments.rest_j()[k]) is SelfSuspension
                                    && segment_interval(segments.rest_j()[k]).is_finite() && rank(segment_interval(segments.rest_j()[k]).a)
                                    <= rank(segment_interval(segments.rest_j()[k]).b) by {
                                    assert(segments.rest_j()[k] == rj[k + 1]);
                                }
                            }
                            new_segments.push((prev_susp, prev_exec));
                            prev_exec = 0;
                            prev_susp = i.duration_unwrap();
                            proof {
                                lemma_sum_len_prefix(ev, ki);
                            }
                        },
                    }
                    proof {
                        taken = taken + 1;
                    }
                },
            }
        }

        if prev_exec > 0 {
            new_segments.push((prev_susp, prev_exec));
        }
        proof {
            assert(new_segments@ =~= full);
        }
        new_segments
    }

    fn update_segments(cur: &mut Vec<(u64, u64)>, new: &[(u64, u64)])
        ensures
            final(cur)@ == spec_max_pairs(old(cur)@, new@),
    {
        let ghost o = cur@;
        let n = if cur.len() <= new.len() {
            cur.len()
        } else {
            new.len()
        };
        let mut i: usize = 0;
        while i < n
            invariant
                n <= o.len(),
                n <= new@.len() || n == o.len(),
                n == (if o.len() <= new@.len() { o.len() } else { new@.len() }),
                cur@.len() == o.len(),
                0 <= i <= n,
                forall|k: int| 0 <= k < i ==> #[trigger] cur@[k] == spec_max_pairs(o, new@)[k],
                forall|k: int| i <= k < o.len() ==> #[trigger] cur@[k] == o[k],
            decreases n - i,
        {
            let a = cur[i];
            let b = new[i];
            let v = (if a.0 >= b.0 { a.0 } else { b.0 }, if a.1 >= b.1 { a.1 } else { b.1 });
            cur.set(i, v);
            i += 1;
        }
        proof {
            assert(cur@ =~= spec_max_pairs(o, new@));
        }
    }

    /// Records the segments of `job`. Extraction stops for good when the
    /// job's range holds compressed intervals, when it has too many
    /// segments, or when a new number of segments comes once the bag is
    /// full.
    pub fn update(&mut self, timeline: &mut Timeline, job: &Job)
        requires
            old(timeline).wf(),
        ensures
            final(timeline).wf(),
            spec_same(old(timeline).rt(), final(timeline).rt()),
            spec_same(old(timeline).su(), final(timeline).su()),
            spec_bag_updated(*old(self), *final(self), *old(timeline), *job),
    {
        if self.should_extract {
            if timeline.has_compressed_intervals(&job.boundaries()) {
                self.should_extract = false;
                return;
            }

            let segments = Self::get_segments(timeline, job);
            let m = segments.len();

            if m > MAX_SEGMENTS {
                self.should_extract = false;
                return;
            }

            let is_full = self.segments.len() == self.capacity;

            if self.segments.contains_key(&m) {
                let mut cur = match self.segments.remove(&m) {
                    Some(v) => v,
                    None => Vec::new(),
                };
                Self::update_segments(&mut cur, segments.as_slice());
                self.segments.insert(m, cur);
                proof {
                    assert(self.segments@.dom() =~= old(self).segments@.dom());
                }
            } else {
                if is_full {
                    self.should_extract = false;
                    self.segments.clear();
                    return;
                }
                self.segments.insert(m, segments);
            }
        }
    }

    /// The bag, unless extraction was given up or nothing was recorded.
    pub fn extract(&self) -> (r: Option<BTreeMap<usize, Vec<(u64, u64)>>>)
        ensures
            self.spec_should_extract() && !self.bag().is_empty() ==> (r matches Some(b) && b@ == self.bag()),
            !(self.spec_should_extract() && !self.bag().is_empty()) ==> r is None,
    {
        if self.should_extract && !self.segments.is_empty() {
            return Some(self.segments.clone());
        }
        None
    }
}

impl Default for BagOfSegmentedSelfSuspension {
    fn default() -> (r: Self)
        ensures
            r.bag() == Map::<usize, Vec<(u64, u64)>>::empty(),
            r.spec_capacity() == 16,
            r.spec_should_extract(),
    {
        Self::new()
    }
}

} // verus!
