//! Arrival curves: the smallest and greatest distances between consecutive
//! arrivals.

use crate::job::{spec_arrival, Job};
use crate::utils::RingBuffer;
use vstd::prelude::*;

use super::{ArrivalModel, ArrivalModelExtractor};

verus! {

/// The smallest distance between two arrivals `d` positions apart in `s`.
pub open spec fn min_gap(s: Seq<u64>, d: int) -> int
    decreases s.len(),
{
    if s.len() == 0 || s.len() <= d + 1 {
        s.last() - s[s.len() - 1 - d]
    } else {
        let a = min_gap(s.drop_last(), d);
        let b = s.last() - s[s.len() - 1 - d];
        if a <= b {
            a
        } else {
            b
        }
    }
}


/// `min_gap` is the smallest distance between two arrivals `d` positions
/// apart: no pair is closer, and some pair is that close.
pub proof fn lemma_min_gap_is_min(s: Seq<u64>, d: int)
    requires
        d >= 1,
        s.len() >= d + 1,
    ensures
        forall|j: int| 0 <= j < s.len() - d ==> min_gap(s, d) <= #[trigger] s[j + d] - s[j],
        exists|j: int| 0 <= j < s.len() - d && min_gap(s, d) == #[trigger] s[j + d] - s[j],
    decreases s.len(),
{
    let n = s.len() as int;
    if n <= d + 1 {
        assert(min_gap(s, d) == s[0 + d] - s[0]);
    } else {
        let t = s.drop_last();
        lemma_min_gap_is_min(t, d);
        assert forall|j: int| 0 <= j < s.len() - d implies min_gap(s, d) <= #[trigger] s[j + d] - s[j] by {
            if j < n - 1 - d {
                assert(t[j + d] == s[j + d] && t[j] == s[j]);
            } else {
                assert(j + d == n - 1);
            }
        }
        let j0 = choose|j: int| 0 <= j < t.len() - d && min_gap(t, d) == #[trigger] t[j + d] - t[j];
        assert(t[j0 + d] == s[j0 + d] && t[j0] == s[j0]);
        let j1 = n - 1 - d;
        assert(s[j1 + d] == s.last());
    }
}

/// `max_gap` is the greatest distance between two arrivals `d` positions
/// apart: no pair is farther, and some pair is that far.
pub proof fn lemma_max_gap_is_max(s: Seq<u64>, d: int)
    requires
        d >= 1,
        s.len() >= d + 1,
    ensures
        forall|j: int| 0 <= j < s.len() - d ==> max_gap(s, d) >= #[trigger] s[j + d] - s[j],
        exists|j: int| 0 <= j < s.len() - d && max_gap(s, d) == #[trigger] s[j + d] - s[j],
    decreases s.len(),
{
    let n = s.len() as int;
    if n <= d + 1 {
        assert(max_gap(s, d) == s[0 + d] - s[0]);
    } else {
        let t = s.drop_last();
        lemma_max_gap_is_max(t, d);
        assert forall|j: int| 0 <= j < s.len() - d implies max_gap(s, d) >= #[trigger] s[j + d] - s[j] by {
            if j < n - 1 - d {
                assert(t[j + d] == s[j + d] && t[j] == s[j]);
            } else {
                assert(j + d == n - 1);
            }
        }
        let j0 = choose|j: int| 0 <= j < t.len() - d && max_gap(t, d) == #[trigger] t[j + d] - t[j];
        assert(t[j0 + d] == s[j0 + d] && t[j0] == s[j0]);
        let j1 = n - 1 - d;
        assert(s[j1 + d] == s.last());
    }
}

/// The greatest distance between two arrivals `d` positions apart in `s`.
pub open spec fn max_gap(s: Seq<u64>, d: int) -> int
    decreases s.len(),
{
    if s.len() == 0 || s.len() <= d + 1 {
        s.last() - s[s.len() - 1 - d]
    } else {
        let a = max_gap(s.drop_last(), d);
        let b = s.last() - s[s.len() - 1 - d];
        if a >= b {
            a
        } else {
            b
        }
    }
}

pub open spec fn nondecreasing(s: Seq<u64>) -> bool {
    forall|i: int, j: int| 0 <= i <= j < s.len() ==> s[i] <= s[j]
}

/// Arrival curve extractor over a bounded window of arrivals.
pub struct ArrivalCurve {
    window: RingBuffer<u64>,
    dmins: Vec<u64>,
    dmaxs: Vec<u64>,
    history: Ghost<Seq<u64>>,
}

impl ArrivalCurve {
    /// The arrivals seen so far.
    pub closed spec fn seen(&self) -> Seq<u64> {
        self.history@
    }

    /// The number of arrivals that a distance spans at most, minus one.
    pub closed spec fn depth(&self) -> usize {
        self.window.spec_capacity()
    }

    /// The arrivals the next one is compared with.
    pub closed spec fn recent(&self) -> Seq<u64> {
        self.window.contents()
    }

    pub closed spec fn spec_dmins(&self) -> Seq<u64> {
        self.dmins@
    }

    pub closed spec fn spec_dmaxs(&self) -> Seq<u64> {
        self.dmaxs@
    }

    /// Whether `arrival` may come next: it is not before the last arrival
    /// seen, when distances are kept at all.
    pub open spec fn spec_accepts_arrival(&self, arrival: u64) -> bool {
        self.depth() > 0 && self.seen().len() > 0 ==> self.seen().last() <= arrival
    }

    /// Number of distances known: one less than the arrivals seen, up to the
    /// depth.
    pub open spec fn spec_known(&self) -> int {
        if self.seen().len() == 0 {
            0
        } else if self.seen().len() - 1 <= self.depth() {
            self.seen().len() - 1
        } else {
            self.depth() as int
        }
    }

    pub closed spec fn wf(&self) -> bool {
        let h = self.history@;
        let w = if h.len() <= self.window.spec_capacity() {
            h.len() as int
        } else {
            self.window.spec_capacity() as int
        };
        &&& self.window.wf()
        &&& self.window.spec_capacity() < usize::MAX
        &&& self.window.contents() == h.subrange(h.len() - w, h.len() as int)
        &&& nondecreasing(self.window.contents())
        &&& self.dmins@.len() == self.spec_known()
        &&& self.dmaxs@.len() == self.spec_known()
        &&& forall|i: int| 0 <= i < self.spec_known() ==> #[trigger] self.dmins@[i] == min_gap(h, i + 1)
        &&& forall|i: int| 0 <= i < self.spec_known() ==> #[trigger] self.dmaxs@[i] == max_gap(h, i + 1)
    }

    pub fn new(capacity: usize) -> (r: Self)
        requires
            capacity >= 1,
        ensures
            r.wf(),
            r.depth() == capacity - 1,
            r.seen() == Seq::<u64>::empty(),
    {
        let r = Self {
            window: RingBuffer::new(capacity - 1),
            dmins: Vec::new(),
            dmaxs: Vec::new(),
            history: Ghost(Seq::empty()),
        };
        proof {
            assert(r.history@.subrange(0, 0) =~= Seq::<u64>::empty());
        }
        r
    }

    fn push_arrival(&mut self, arrival: u64)
        requires
            old(self).wf(),
            old(self).recent().len() > 0 ==> old(self).recent().last() <= arrival,
        ensures
            final(self).wf(),
            final(self).depth() == old(self).depth(),
            final(self).seen() == old(self).seen().push(arrival),
    {
        let ghost h = self.history@;
        let ghost h2 = h.push(arrival);
        let ghost cap = self.window.spec_capacity();
        let ghost w = self.window.contents();
        let slice = self.window.as_slice();
        let n = slice.len();
        let mut i: usize = 0;
        proof {
            assert(h2.drop_last() == h);
        }
        while i < n
            invariant
                slice@ == w,
                n == w.len(),
                w == self.window.contents(),
                self.window.wf(),
                self.window.spec_capacity() == cap,
                cap < usize::MAX,
                nondecreasing(w),
                w.len() > 0 ==> w.last() <= arrival,
                h == self.history@,
                h2 == h.push(arrival),
                w == h.subrange(h.len() - n, h.len() as int),
                n == (if h.len() <= cap { h.len() as int } else { cap as int }),
                0 <= i <= n,
                self.dmins@.len() == self.dmaxs@.len(),
                self.dmins@.len() == (if i as int > self.spec_known() { i as int } else { self.spec_known() }),
                forall|k: int| 0 <= k < i ==> #[trigger] self.dmins@[k] == min_gap(h2, k + 1),
                forall|k: int| 0 <= k < i ==> #[trigger] self.dmaxs@[k] == max_gap(h2, k + 1),
                forall|k: int| i <= k < self.spec_known() ==> #[trigger] self.dmins@[k] == min_gap(h, k + 1),
                forall|k: int| i <= k < self.spec_known() ==> #[trigger] self.dmaxs@[k] == max_gap(h, k + 1),
            decreases n - i,
        {
            let v = slice[n - 1 - i];
            proof {
                assert(v == h2[h2.len() - 1 - (i + 1)]);
                assert(v <= w.last());
            }
            let observed_gap = arrival - v;
            proof {
                assert(h2.last() == arrival);
                assert(h2[h2.len() - 1 - (i + 1)] == v);
                assert(h2.drop_last() == h);
            }
            if self.dmins.len() <= i {
                proof {
                    assert(h2.len() == i + 2);
                    assert(min_gap(h2, i + 1) == arrival - v);
                    assert(max_gap(h2, i + 1) == arrival - v);
                }
                self.dmins.push(observed_gap);
                self.dmaxs.push(observed_gap);
            } else {
                proof {
                    assert(h2.len() > i + 2);
                    assert(min_gap(h2, i + 1) == (if min_gap(h, i + 1) <= arrival - v {
                        min_gap(h, i + 1)
                    } else {
                        arrival - v
                    }));
                    assert(max_gap(h2, i + 1) == (if max_gap(h, i + 1) >= arrival - v {
                        max_gap(h, i + 1)
                    } else {
                        arrival - v
                    }));
                }
                let a = self.dmins[i];
                let b = self.dmaxs[i];
                self.dmins.set(i, if a <= observed_gap { a } else { observed_gap });
                self.dmaxs.set(i, if b >= observed_gap { b } else { observed_gap });
            }
            i += 1;
        }
        self.window.push(arrival);
        self.history = Ghost(h2);
        proof {
            let c = self.window.contents();
            let w2 = if h2.len() <= cap { h2.len() as int } else { cap as int };
            assert(c =~= h2.subrange(h2.len() - w2, h2.len() as int));
            if h.len() < cap {
                assert(c == w.push(arrival));
            } else {
                assert(c == w.push(arrival).drop_first());
            }
            assert forall|x: int, y: int| 0 <= x <= y < c.len() implies c[x] <= c[y] by {
                if h.len() < cap {
                    if x < w.len() {
                        assert(c[x] == w[x]);
                    }
                    if y < w.len() {
                        assert(c[y] == w[y]);
                    }
                } else {
                    assert(c[x] == w.push(arrival)[x + 1]);
                    assert(c[y] == w.push(arrival)[y + 1]);
                }
            }
        }
    }

    /// The largest number of consecutive arrivals covered by the curve.
    pub fn max_jobs_in_prefix(&self) -> (r: usize)
        requires
            self.wf(),
        ensures
            r == self.spec_known() + 1,
    {
        self.dmins.len() + 1
    }

    /// The smallest time observed between `n` consecutive arrivals.
    pub fn min_separation(&self, n: usize) -> (r: Option<u64>)
        requires
            self.wf(),
        ensures
            n <= 1 ==> r == Some(0u64),
            n > 1 && n > self.spec_known() + 1 ==> r is None,
            n > 1 && n <= self.spec_known() + 1 ==> r == Some(min_gap(self.seen(), n - 1) as u64),
    {
        if n <= 1 {
            Some(0)
        } else if n > self.dmins.len() + 1 {
            None
        } else {
            Some(self.dmins[n - 2])
        }
    }

    /// `delta_mins()[i]`: the smallest time observed between `i + 2` arrivals.
    pub fn delta_mins(&self) -> (r: &[u64])
        requires
            self.wf(),
        ensures
            r@.len() == self.spec_known(),
            forall|i: int| 0 <= i < r@.len() ==> #[trigger] r@[i] == min_gap(self.seen(), i + 1),
    {
        self.dmins.as_slice()
    }

    /// `delta_maxs()[i]`: the greatest time observed between `i + 2` arrivals.
    pub fn delta_maxs(&self) -> (r: &[u64])
        requires
            self.wf(),
        ensures
            r@.len() == self.spec_known(),
            forall|i: int| 0 <= i < r@.len() ==> #[trigger] r@[i] == max_gap(self.seen(), i + 1),
    {
        self.dmaxs.as_slice()
    }

    /// The recent arrivals are the last ones seen.
    proof fn lemma_recent_last(&self)
        requires
            self.wf(),
        ensures
            self.recent().len() > 0 <==> (self.depth() > 0 && self.seen().len() > 0),
            self.recent().len() > 0 ==> self.recent().last() == self.seen().last(),
    {
    }

    /// Whether `job` may be recorded next: see `spec_accepts_arrival`.
    pub fn accepts(&self, job: &Job) -> (r: bool)
        requires
            self.wf(),
        ensures
            r == self.spec_accepts_arrival(spec_arrival(*job)),
    {
        proof {
            self.lemma_recent_last();
        }
        let arrival = job.arrival();
        match self.window.last() {
            Some(l) => *l <= arrival,
            None => true,
        }
    }

    /// Records the arrival of `job`. Arrivals come in order.
    pub fn update(&mut self, job: &Job)
        requires
            old(self).wf(),
            old(self).spec_accepts_arrival(spec_arrival(*job)),
        ensures
            final(self).wf(),
            final(self).depth() == old(self).depth(),
            final(self).seen() == old(self).seen().push(spec_arrival(*job)),
    {
        proof {
            self.lemma_recent_last();
        }
        let arrival = job.arrival();
        self.push_arrival(arrival)
    }
}

impl ArrivalModelExtractor for ArrivalCurve {
    /// The curve, unless every distance observed is zero.
    fn extract(&self) -> (r: Option<ArrivalModel>)
        ensures
            (forall|i: int| 0 <= i < self.spec_dmaxs().len() ==> self.spec_dmaxs()[i] == 0) ==> r is None,
            !(forall|i: int| 0 <= i < self.spec_dmaxs().len() ==> self.spec_dmaxs()[i] == 0) ==> (r
                matches Some(ArrivalModel::ArrivalCurve { dmins, dmaxs }) && dmins@ == self.spec_dmins()
                && dmaxs@ == self.spec_dmaxs()),
    {
        let mut all_zero = true;
        let mut i: usize = 0;
        while i < self.dmaxs.len()
            invariant
                0 <= i <= self.dmaxs@.len(),
                all_zero == (forall|k: int| 0 <= k < i ==> self.dmaxs@[k] == 0),
            decreases self.dmaxs@.len() - i,
        {
            if self.dmaxs[i] != 0 {
                all_zero = false;
            }
            i += 1;
        }
        if all_zero {
            None
        } else {
            proof {
                let k = choose|k: int| 0 <= k < self.dmaxs@.len() && self.dmaxs@[k] != 0;
                assert(self.spec_dmaxs()[k] != 0);
            }
            Some(
                ArrivalModel::ArrivalCurve {
                    dmins: vstd::slice::slice_to_vec(self.dmins.as_slice()),
                    dmaxs: vstd::slice::slice_to_vec(self.dmaxs.as_slice()),
                },
            )
        }
    }
}

} // verus!
