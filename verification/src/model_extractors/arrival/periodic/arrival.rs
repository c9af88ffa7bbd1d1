//! A periodic arrival detector on exact arrival times.

use crate::job::{spec_arrival, spec_release_jitter, Job};
use crate::model_extractors::arrival::{ArrivalModel, ArrivalModelExtractor, Periodic};
use crate::utils::UpperBoundTracker;
use vstd::prelude::*;

verus! {

/// A periodic arrival detector.
///
/// Suitable only if arrivals are known precisely and with certainty: the
/// true arrival of a job is its arrival minus its measured jitter. The
/// detection stops at the first gap between arrivals that differs from the
/// first one.
pub struct DiffPeriodicExtractor {
    offset: Option<u64>,
    last_arrival: Option<u64>,
    max_jitter: UpperBoundTracker,
    period: Option<u64>,
    should_update: bool,
    arrivals: Ghost<Seq<u64>>,
    jitters: Ghost<Seq<u64>>,
}

/// The largest value of `s`, none when it is empty.
pub open spec fn max_of(s: Seq<u64>) -> Option<u64>
    decreases s.len(),
{
    if s.len() == 0 {
        None
    } else {
        match max_of(s.drop_last()) {
            Some(m) => if m >= s.last() {
                Some(m)
            } else {
                Some(s.last())
            },
            None => Some(s.last()),
        }
    }
}

/// Every gap between consecutive arrivals of `s` is `p`.
pub open spec fn all_gaps(s: Seq<u64>, p: int) -> bool {
    forall|i: int| 1 <= i < s.len() ==> #[trigger] s[i] - s[i - 1] == p
}

/// What `DiffPeriodicExtractor::update` makes of `old_p` for `job`.
pub open spec fn spec_periodic_updated(old_p: DiffPeriodicExtractor, new_p: DiffPeriodicExtractor, job: Job) -> bool {
    let a = spec_arrival(job);
    let j = spec_release_jitter(job);
    let o = old_p;
    let mj = match o.spec_max_jitter() {
        Some(m) => if m >= j {
            m
        } else {
            j
        },
        None => j,
    };
    if !o.spec_should_update() {
        new_p == o
    } else {
        match o.spec_last_arrival() {
            None => {
                &&& new_p.spec_offset() == Some(a)
                &&& new_p.spec_max_jitter() == Some(mj)
                &&& new_p.spec_period() == o.spec_period()
                &&& new_p.spec_should_update()
                &&& new_p.spec_last_arrival() == Some(a)
            },
            Some(l) => {
                let delta = (a - l) as u64;
                &&& new_p.spec_offset() == o.spec_offset()
                &&& new_p.spec_last_arrival() == Some(a)
                &&& match o.spec_period() {
                    Some(p) => if delta == p {
                        &&& new_p.spec_max_jitter() == Some(mj)
                        &&& new_p.spec_period() == Some(p)
                        &&& new_p.spec_should_update()
                    } else {
                        &&& new_p.spec_max_jitter() == o.spec_max_jitter()
                        &&& new_p.spec_period() is None
                        &&& !new_p.spec_should_update()
                    },
                    None => {
                        &&& new_p.spec_max_jitter() == Some(mj)
                        &&& new_p.spec_period() == Some(delta)
                        &&& new_p.spec_should_update()
                    },
                }
            },
        }
    }
}

proof fn lemma_max_of(s: Seq<u64>)
    ensures
        max_of(s) is None <==> s.len() == 0,
        max_of(s) matches Some(m) ==> (forall|i: int| 0 <= i < s.len() ==> #[trigger] s[i] <= m) && (exists|i: int|
            0 <= i < s.len() && #[trigger] s[i] == m),
    decreases s.len(),
{
    if s.len() > 0 {
        let t = s.drop_last();
        lemma_max_of(t);
        assert forall|i: int| 0 <= i < t.len() implies #[trigger] s[i] == t[i] by {}
        match max_of(t) {
            Some(m) => {
                let i0 = choose|i: int| 0 <= i < t.len() && #[trigger] t[i] == m;
                assert(s[i0] == m);
                assert(s[s.len() - 1] == s.last());
            },
            None => {
                assert(s[s.len() - 1] == s.last());
            },
        }
    }
}

impl DiffPeriodicExtractor {
    pub closed spec fn spec_offset(&self) -> Option<u64> {
        self.offset
    }

    pub closed spec fn spec_last_arrival(&self) -> Option<u64> {
        self.last_arrival
    }

    pub closed spec fn spec_max_jitter(&self) -> Option<u64> {
        self.max_jitter.spec_get()
    }

    pub closed spec fn spec_period(&self) -> Option<u64> {
        self.period
    }

    pub closed spec fn spec_should_update(&self) -> bool {
        self.should_update
    }

    /// The arrivals taken while detecting, in order.
    pub closed spec fn spec_arrivals(&self) -> Seq<u64> {
        self.arrivals@
    }

    /// The release jitters of the jobs that kept the detection going, in
    /// order.
    pub closed spec fn spec_jitters(&self) -> Seq<u64> {
        self.jitters@
    }

    pub closed spec fn wf(&self) -> bool {
        let h = self.arrivals@;
        &&& self.last_arrival is Some <==> self.offset is Some
        &&& self.last_arrival is Some <==> self.max_jitter.spec_get() is Some
        &&& self.period is Some ==> self.last_arrival is Some
        &&& self.last_arrival == if h.len() > 0 { Some(h.last()) } else { None::<u64> }
        &&& self.offset == if h.len() > 0 { Some(h[0]) } else { None::<u64> }
        &&& forall|i: int| 1 <= i < h.len() ==> h[i - 1] <= #[trigger] h[i]
        &&& self.max_jitter.spec_get() == max_of(self.jitters@)
        &&& self.jitters@.len() == if self.should_update { h.len() as int } else { h.len() - 1 }
        &&& self.should_update ==> {
            &&& h.len() < 2 ==> self.period is None
            &&& h.len() >= 2 ==> self.period == Some((h[1] - h[0]) as u64) && all_gaps(h, h[1] - h[0])
        }
        &&& !self.should_update ==> {
            &&& self.period is None
            &&& h.len() >= 3
            &&& !all_gaps(h, h[1] - h[0])
        }
    }

    /// A reported period is the gap between every two consecutive arrivals
    /// seen; arrivals with two different gaps give no period; at least two
    /// arrivals with a single gap give that gap as the period.
    pub proof fn law_period_is_every_gap(&self)
        requires
            self.wf(),
        ensures
            self.spec_period() matches Some(p) ==> self.spec_arrivals().len() >= 2 && all_gaps(
                self.spec_arrivals(),
                p as int,
            ),
            (exists|i: int, j: int|
                1 <= i < self.spec_arrivals().len() && 1 <= j < self.spec_arrivals().len()
                    && #[trigger] self.spec_arrivals()[i] - self.spec_arrivals()[i - 1] != #[trigger] self.spec_arrivals()[j]
                    - self.spec_arrivals()[j - 1]) ==> self.spec_period() is None,
            self.spec_arrivals().len() >= 2 && all_gaps(
                self.spec_arrivals(),
                self.spec_arrivals()[1] - self.spec_arrivals()[0],
            ) ==> self.spec_period() == Some((self.spec_arrivals()[1] - self.spec_arrivals()[0]) as u64),
    {
        let h = self.arrivals@;
        if self.period is Some && h.len() >= 2 {
            assert(h[1] - h[0] >= 0);
        }
    }

    /// The offset is the first arrival seen, the last arrival the newest
    /// one, and the jitter bound the largest release jitter of the jobs
    /// that kept the detection going: all of them while it goes on, all but
    /// the one with a different gap once it stopped.
    pub proof fn law_offset_and_jitter(&self)
        requires
            self.wf(),
        ensures
            self.spec_offset() == if self.spec_arrivals().len() > 0 {
                Some(self.spec_arrivals()[0])
            } else {
                None::<u64>
            },
            self.spec_last_arrival() == if self.spec_arrivals().len() > 0 {
                Some(self.spec_arrivals().last())
            } else {
                None::<u64>
            },
            self.spec_max_jitter() == max_of(self.spec_jitters()),
            self.spec_max_jitter() matches Some(m) ==> (forall|i: int|
                0 <= i < self.spec_jitters().len() ==> #[trigger] self.spec_jitters()[i] <= m) && (exists|i: int|
                0 <= i < self.spec_jitters().len() && #[trigger] self.spec_jitters()[i] == m),
            self.spec_jitters().len() == if self.spec_should_update() {
                self.spec_arrivals().len() as int
            } else {
                self.spec_arrivals().len() - 1
            },
    {
        lemma_max_of(self.jitters@);
    }

    pub fn new() -> (r: Self)
        ensures
            r.wf(),
            r.spec_offset() is None,
            r.spec_last_arrival() is None,
            r.spec_max_jitter() is None,
            r.spec_period() is None,
            r.spec_should_update(),
            r.spec_arrivals() == Seq::<u64>::empty(),
            r.spec_jitters() == Seq::<u64>::empty(),
    {
        Self {
            last_arrival: None,
            max_jitter: UpperBoundTracker::new(),
            period: None,
            offset: None,
            should_update: true,
            arrivals: Ghost(Seq::empty()),
            jitters: Ghost(Seq::empty()),
        }
    }

    /// Whether `update` can take `job`: while detecting, its arrival is not
    /// before the last one.
    pub fn accepts(&self, job: &Job) -> (r: bool)
        ensures
            r == (self.spec_should_update() ==> (self.spec_last_arrival() matches Some(l) ==> l
                <= spec_arrival(*job))),
    {
        if !self.should_update {
            return true;
        }
        match self.last_arrival {
            Some(l) => l <= job.arrival(),
            None => true,
        }
    }

    /// Records the arrival of `job`.
    pub fn update(&mut self, job: &Job)
        requires
            old(self).wf(),
            old(self).spec_should_update() ==> (old(self).spec_last_arrival() matches Some(l) ==> l
                <= spec_arrival(*job)),
        ensures
            final(self).wf(),
            spec_periodic_updated(*old(self), *final(self), *job),
            final(self).spec_arrivals() == if old(self).spec_should_update() {
                old(self).spec_arrivals().push(spec_arrival(*job))
            } else {
                old(self).spec_arrivals()
            },
            final(self).spec_jitters() == if old(self).spec_should_update() && final(self).spec_should_update() {
                old(self).spec_jitters().push(spec_release_jitter(*job))
            } else {
                old(self).spec_jitters()
            },
    {
        if !self.should_update {
            return;
        }
        let ghost h = self.arrivals@;
        let ghost js = self.jitters@;

        let arrival = job.arrival();
        let jitter = job.release_jitter();

        if let Some(last_arrival) = self.last_arrival {
            let delta = arrival - last_arrival;

            if let Some(period) = self.period {
                if delta == period {
                    self.max_jitter.update(jitter);
                } else {
                    self.should_update = false;
                    self.period = None;
                }
            } else {
                self.period = Some(delta);
                self.max_jitter.update(jitter);
            }
        } else {
            self.max_jitter.update(jitter);
            self.offset = Some(arrival);
        }

        self.last_arrival = Some(arrival);
        self.arrivals = Ghost(h.push(arrival));
        if self.should_update {
            self.jitters = Ghost(js.push(jitter));
        }
        proof {
            assert(js.push(jitter).drop_last() =~= js);
            let h2 = h.push(arrival);
            assert(h2.last() == arrival);
            assert forall|i: int| 1 <= i < h2.len() implies h2[i - 1] <= #[trigger] h2[i] by {
                if i < h.len() {
                    assert(h2[i] == h[i] && h2[i - 1] == h[i - 1]);
                }
            }
            if h.len() >= 2 {
                assert(h2[1] == h[1] && h2[0] == h[0]);
                if self.should_update {
                    assert forall|i: int| 1 <= i < h2.len() implies #[trigger] h2[i] - h2[i - 1] == h2[1] - h2[0] by {
                        if i < h.len() {
                            assert(h2[i] == h[i] && h2[i - 1] == h[i - 1]);
                        }
                    }
                } else {
                    let k = h2.len() - 1;
                    assert(h2[k] - h2[k - 1] != h2[1] - h2[0]);
                }
            }
        }
    }
}

impl ArrivalModelExtractor for DiffPeriodicExtractor {
    /// The periodic model found, if any. A period only comes with an
    /// offset and a jitter bound.
    fn extract(&self) -> (r: Option<ArrivalModel>)
        ensures
            self.spec_period() is None ==> r is None,
            self.spec_period() matches Some(p) ==> r == Some(
                ArrivalModel::Periodic(
                    Periodic::Arrival {
                        period: p,
                        max_jitter: match self.spec_max_jitter() {
                            Some(m) => m,
                            None => 0,
                        },
                        offset: match self.spec_offset() {
                            Some(o) => o,
                            None => 0,
                        },
                    },
                ),
            ),
    {
        match self.period {
            Some(period) => {
                let max_jitter = match self.max_jitter.get() {
                    Some(m) => m,
                    None => 0,
                };
                let offset = match self.offset {
                    Some(o) => o,
                    None => 0,
                };
                Some(ArrivalModel::Periodic(Periodic::Arrival { period, max_jitter, offset }))
            },
            None => None,
        }
    }
}

} // verus!
