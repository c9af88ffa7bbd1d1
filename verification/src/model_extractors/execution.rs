//! Execution-time models: the largest sums of consecutive execution times.

use crate::ir::timeline::layers::base::spec_same;
use crate::ir::timeline::Timeline;
use crate::job::{spec_boundaries, Job};
use crate::utils::RingBuffer;
use vstd::prelude::*;

verus! {

pub const WCET_N_MAX: usize = 32;

/// Sum of the values of `s`.
pub open spec fn seq_sum(s: Seq<u64>) -> int
    decreases s.len(),
{
    if s.len() == 0 {
        0
    } else {
        seq_sum(s.drop_last()) + s.last()
    }
}

/// Sum of the last `l` values of `s`.
pub open spec fn last_sum(s: Seq<u64>, l: int) -> int {
    seq_sum(s.subrange(s.len() - l, s.len() as int))
}

/// The largest sum of `l` consecutive values of `s` (the sum of all of
/// them when there are at most `l`).
pub open spec fn max_window(s: Seq<u64>, l: int) -> int
    decreases s.len(),
{
    if s.len() == 0 || s.len() <= l {
        seq_sum(s)
    } else {
        let a = max_window(s.drop_last(), l);
        let b = last_sum(s, l);
        if a >= b {
            a
        } else {
            b
        }
    }
}

/// Sum of the `l` values of `s` from position `j` on.
pub open spec fn window_sum(s: Seq<u64>, j: int, l: int) -> int {
    seq_sum(s.subrange(j, j + l))
}

/// `max_window` is the largest sum of `l` consecutive values: no window
/// sums to more, and some window sums to that.
pub proof fn lemma_max_window_is_max(s: Seq<u64>, l: int)
    requires
        1 <= l <= s.len(),
    ensures
        forall|j: int| 0 <= j <= s.len() - l ==> max_window(s, l) >= #[trigger] window_sum(s, j, l),
        exists|j: int| 0 <= j <= s.len() - l && max_window(s, l) == #[trigger] window_sum(s, j, l),
    decreases s.len(),
{
    let n = s.len() as int;
    if n <= l {
        assert(s.subrange(0, 0 + l) =~= s);
        assert(max_window(s, l) == window_sum(s, 0, l));
    } else {
        let t = s.drop_last();
        lemma_max_window_is_max(t, l);
        assert(last_sum(s, l) == window_sum(s, n - l, l));
        assert forall|j: int| 0 <= j <= s.len() - l implies max_window(s, l) >= #[trigger] window_sum(s, j, l) by {
            if j < n - l {
                assert(t.subrange(j, j + l) =~= s.subrange(j, j + l));
                assert(window_sum(t, j, l) == window_sum(s, j, l));
            }
        }
        let j0 = choose|j: int| 0 <= j <= t.len() - l && max_window(t, l) == #[trigger] window_sum(t, j, l);
        assert(t.subrange(j0, j0 + l) =~= s.subrange(j0, j0 + l));
        assert(window_sum(t, j0, l) == window_sum(s, j0, l));
    }
}

proof fn lemma_last_sum_step(s: Seq<u64>, l: int)
    requires
        0 <= l < s.len(),
    ensures
        last_sum(s, l + 1) == last_sum(s, l) + s[s.len() - l - 1],
    decreases l,
{
    let n = s.len() as int;
    if l == 0 {
        let t = s.subrange(n - 1, n);
        assert(t.drop_last() =~= Seq::<u64>::empty());
        assert(s.subrange(n, n) =~= Seq::<u64>::empty());
    } else {
        lemma_last_sum_step(s.drop_last(), l - 1);
        assert(s.subrange(n - l - 1, n).drop_last() =~= s.drop_last().subrange(n - l - 1, n - 1));
        assert(s.subrange(n - l, n).drop_last() =~= s.drop_last().subrange(n - l, n - 1));
    }
}

proof fn lemma_seq_sum_nonneg(s: Seq<u64>)
    ensures
        seq_sum(s) >= 0,
    decreases s.len(),
{
    if s.len() > 0 {
        lemma_seq_sum_nonneg(s.drop_last());
    }
}

/// Tracks, for each `k` up to a bound, the largest sum of `k` consecutive
/// values.
pub struct MaxSumN {
    buff: RingBuffer<u64>,
    max_sums: Vec<u64>,
    history: Ghost<Seq<u64>>,
}

impl MaxSumN {
    /// The values seen so far.
    pub closed spec fn seen(&self) -> Seq<u64> {
        self.history@
    }

    /// The bound on the window length.
    pub closed spec fn bound(&self) -> usize {
        self.buff.spec_capacity()
    }

    /// `max_sums()[k]` for the windows of length `k + 1`.
    pub closed spec fn sums(&self) -> Seq<u64> {
        self.max_sums@
    }

    /// Number of tracked window lengths: the values seen, up to the bound.
    pub open spec fn spec_tracked(&self) -> int {
        if self.seen().len() <= self.bound() {
            self.seen().len() as int
        } else {
            self.bound() as int
        }
    }

    pub closed spec fn wf(&self) -> bool {
        let h = self.history@;
        let m = self.spec_tracked();
        &&& self.buff.wf()
        &&& self.buff.contents() == h.subrange(h.len() - m, h.len() as int)
        &&& self.max_sums@.len() == m
        &&& forall|k: int| 0 <= k < m ==> #[trigger] self.max_sums@[k] == max_window(h, k + 1)
    }

    pub fn new(n: usize) -> (r: Self)
        ensures
            r.wf(),
            r.bound() == n,
            r.seen() == Seq::<u64>::empty(),
    {
        let r = Self { buff: RingBuffer::new(n), max_sums: Vec::new(), history: Ghost(Seq::empty()) };
        proof {
            assert(r.history@.subrange(0, 0) =~= Seq::<u64>::empty());
        }
        r
    }

    /// Whether the sums stay within `u64` when `x` is recorded, as `update`
    /// needs.
    pub fn can_update(&self, x: u64) -> (r: bool)
        requires
            self.wf(),
        ensures
            r == (last_sum(
                self.seen().push(x),
                if self.seen().len() + 1 <= self.bound() {
                    self.seen().len() + 1int
                } else {
                    self.bound() as int
                },
            ) <= u64::MAX),
    {
        let ghost h = self.history@;
        let ghost h2 = h.push(x);
        let cap = self.buff.capacity();
        let slice = self.buff.as_slice();
        let m = slice.len();
        let m2: usize = if m < cap {
            m + 1
        } else {
            cap
        };
        proof {
            assert(h2.subrange(h2.len() - 0, h2.len() as int) =~= Seq::<u64>::empty());
            assert(m2 == (if h.len() + 1 <= self.bound() { h.len() + 1int } else { self.bound() as int }));
        }
        let mut sum: u64 = 0;
        let mut i: usize = 0;
        while i < m2
            invariant
                h == self.history@,
                h2 == h.push(x),
                slice@ == self.buff.contents(),
                self.buff.contents() == h.subrange(h.len() - m, h.len() as int),
                m == slice@.len(),
                m <= h.len(),
                m2 <= m + 1,
                m2 <= h2.len(),
                m2 == (if h.len() + 1 <= self.bound() { h.len() + 1int } else { self.bound() as int }),
                0 <= i <= m2,
                sum == last_sum(h2, i as int),
            decreases m2 - i,
        {
            let v = if i == 0 {
                x
            } else {
                slice[m - i]
            };
            proof {
                if i > 0 {
                    assert(slice@[m - i] == h[h.len() - i]);
                }
                assert(v == h2[h2.len() - i - 1]);
                lemma_last_sum_step(h2, i as int);
            }
            match sum.checked_add(v) {
                Some(t) => sum = t,
                None => {
                    proof {
                        lemma_last_sum_monotone(h2, i + 1, m2 as int);
                    }
                    return false;
                },
            }
            i += 1;
        }
        true
    }

    /// Records a new value.
    pub fn update(&mut self, new_element: u64)
        requires
            old(self).wf(),
            last_sum(
                old(self).seen().push(new_element),
                if old(self).seen().len() + 1 <= old(self).bound() {
                    old(self).seen().len() + 1int
                } else {
                    old(self).bound() as int
                },
            ) <= u64::MAX,
        ensures
            final(self).wf(),
            final(self).bound() == old(self).bound(),
            final(self).seen() == old(self).seen().push(new_element),
    {
        let ghost h = self.history@;
        let ghost h2 = h.push(new_element);
        let ghost m = self.spec_tracked();
        let old_v = self.buff.push(new_element);
        self.history = Ghost(h2);
        let ghost m2 = self.spec_tracked();
        proof {
            if h.len() < self.buff.spec_capacity() {
                assert(self.buff.contents() =~= h2.subrange(h2.len() - m2, h2.len() as int));
            } else {
                assert(self.buff.contents() =~= h2.subrange(h2.len() - m2, h2.len() as int));
            }
        }

        if old_v.is_none() {
            self.max_sums.push(new_element);
            let last = self.max_sums.len();
            proof {
                assert(m2 == h2.len());
                assert(h2.drop_last() == h);
                assert(seq_sum(h2) == seq_sum(h) + new_element);
                lemma_seq_sum_nonneg(h);
                assert(h2.subrange(0, h2.len() as int) == h2);
                if last > 1 {
                    assert(self.max_sums@[last - 2] == max_window(h, last - 1));
                    assert(max_window(h, last - 1) == seq_sum(h));
                }
            }
            if last > 1 {
                let v = self.max_sums[last - 2];
                self.max_sums.set(last - 1, self.max_sums[last - 1] + v);
            }
            proof {
                assert(self.max_sums@[last - 1] == seq_sum(h2));
                if last == 1 {
                    assert(h2.drop_last() =~= Seq::<u64>::empty());
                }
            }
        }

        let ghost ms0 = self.max_sums@;
        proof {
            assert forall|k: int| 0 <= k < m2 implies (k < ms0.len() && ms0[k] >= 0) by {}
        }
        let slice = self.buff.as_slice();
        let n = slice.len();
        let mut sum: u64 = 0;
        let mut i: usize = 0;
        while i < n
            invariant
                slice@ == self.buff.contents(),
                n == slice@.len(),
                n == m2,
                m2 <= h2.len(),
                self.buff.wf(),
                self.buff.spec_capacity() == old(self).buff.spec_capacity(),
                m2 == (if h2.len() <= self.buff.spec_capacity() {
                    h2.len() as int
                } else {
                    self.buff.spec_capacity() as int
                }),
                h2 == self.history@,
                h2 == h.push(new_element),
                self.buff.contents() == h2.subrange(h2.len() - m2, h2.len() as int),
                self.max_sums@.len() == m2,
                0 <= i <= n,
                sum == last_sum(h2, i as int),
                last_sum(h2, m2) <= u64::MAX,
                forall|k: int| 0 <= k < i ==> #[trigger] self.max_sums@[k] == max_window(h2, k + 1),
                forall|k: int| i <= k < m2 ==> #[trigger] self.max_sums@[k] == ms0[k],
                forall|k: int| 0 <= k < m2 ==> (if k + 1 >= h2.len() {
                    ms0[k] == seq_sum(h2)
                } else {
                    ms0[k] == max_window(h, k + 1)
                }),
            decreases n - i,
        {
            let v = slice[n - 1 - i];
            proof {
                assert(slice@[n - 1 - i] == h2.subrange(h2.len() - m2, h2.len() as int)[n - 1 - i]);
                assert(v == h2[h2.len() - i - 1]);
                lemma_last_sum_step(h2, i as int);
                lemma_last_sum_monotone(h2, i + 1, m2);
            }
            sum = sum + v;
            let cur = self.max_sums[i];
            let best = if cur >= sum { cur } else { sum };
            self.max_sums.set(i, best);
            proof {
                if i + 1 >= h2.len() {
                    assert(h2.subrange(0, h2.len() as int) == h2);
                    assert(max_window(h2, i + 1) == seq_sum(h2));
                } else {
                    assert(h2.drop_last() == h);
                }
            }
            i += 1;
        }
        proof {
            assert(self.buff.contents() == h2.subrange(h2.len() - m2, h2.len() as int));
        }
    }

    /// The largest sum of `n` consecutive values, `None` when `n` is beyond
    /// the tracked window lengths.
    pub fn max_sum_n(&self, n: usize) -> (r: Option<&u64>)
        requires
            self.wf(),
            n >= 1,
        ensures
            n <= self.spec_tracked() ==> r == Some(&(max_window(self.seen(), n as int) as u64)),
            n > self.spec_tracked() ==> r is None,
    {
        if n - 1 < self.max_sums.len() {
            Some(&self.max_sums[n - 1])
        } else {
            None
        }
    }

    /// The largest sums of 1, 2, ... consecutive values.
    pub fn max_sums(&self) -> (r: &[u64])
        requires
            self.wf(),
        ensures
            r@.len() == self.spec_tracked(),
            forall|k: int| 0 <= k < r@.len() ==> #[trigger] r@[k] == max_window(self.seen(), k + 1),
    {
        self.max_sums.as_slice()
    }
}

impl Default for MaxSumN {
    fn default() -> (r: Self)
        ensures
            r.wf(),
            r.bound() == WCET_N_MAX,
            r.seen() == Seq::<u64>::empty(),
    {
        Self::new(WCET_N_MAX)
    }
}

proof fn lemma_last_sum_monotone(s: Seq<u64>, a: int, b: int)
    requires
        0 <= a <= b <= s.len(),
    ensures
        last_sum(s, a) <= last_sum(s, b),
    decreases b - a,
{
    if a < b {
        lemma_last_sum_step(s, a);
        lemma_last_sum_monotone(s, a + 1, b);
    }
}

/// WCET(n) extractor: the largest processor time of `n` consecutive jobs.
pub struct ExecutionTime {
    tracker: MaxSumN,
}

impl ExecutionTime {
    pub closed spec fn spec_tracker(&self) -> MaxSumN {
        self.tracker
    }

    pub fn new(n_max: usize) -> (r: Self)
        ensures
            r.spec_tracker().wf(),
            r.spec_tracker().bound() == n_max,
            r.spec_tracker().seen() == Seq::<u64>::empty(),
    {
        Self { tracker: MaxSumN::new(n_max) }
    }

    /// Records the processor time of `job`.
    pub fn update(&mut self, timeline: &mut Timeline, job: &Job)
        requires
            old(self).spec_tracker().wf(),
            old(timeline).wf(),
            ({
                let h = old(self).spec_tracker().seen().push(
                    old(timeline).rt().spec_coverage(spec_boundaries(*job)) as u64,
                );
                last_sum(
                    h,
                    if h.len() <= old(self).spec_tracker().bound() {
                        h.len() as int
                    } else {
                        old(self).spec_tracker().bound() as int
                    },
                ) <= u64::MAX
            }),
        ensures
            final(self).spec_tracker().wf(),
            final(timeline).wf(),
            spec_same(old(timeline).rt(), final(timeline).rt()),
            spec_same(old(timeline).su(), final(timeline).su()),
            final(self).spec_tracker().bound() == old(self).spec_tracker().bound(),
            final(self).spec_tracker().seen() == old(self).spec_tracker().seen().push(
                old(timeline).rt().spec_coverage(spec_boundaries(*job)) as u64,
            ),
    {
        let t = job.processor_time(timeline);
        self.tracker.update(t);
    }

    /// Whether recording a processor time `t` keeps the sums within `u64`.
    pub fn can_record(&self, t: u64) -> (r: bool)
        requires
            self.spec_tracker().wf(),
        ensures
            r == ({
                let h = self.spec_tracker().seen().push(t);
                last_sum(
                    h,
                    if h.len() <= self.spec_tracker().bound() {
                        h.len() as int
                    } else {
                        self.spec_tracker().bound() as int
                    },
                ) <= u64::MAX
            }),
    {
        self.tracker.can_update(t)
    }

    /// The largest processor time of `n` consecutive jobs.
    pub fn wcet(&self, n: usize) -> (r: Option<u64>)
        requires
            self.spec_tracker().wf(),
            n >= 1,
        ensures
            n <= self.spec_tracker().spec_tracked() ==> r == Some(
                max_window(self.spec_tracker().seen(), n as int) as u64,
            ),
            n > self.spec_tracker().spec_tracked() ==> r is None,
    {
        match self.tracker.max_sum_n(n) {
            Some(v) => Some(*v),
            None => None,
        }
    }

    /// The largest processor times of 1, 2, ... consecutive jobs.
    pub fn wcets(&self) -> (r: Vec<u64>)
        requires
            self.spec_tracker().wf(),
        ensures
            r@.len() == self.spec_tracker().spec_tracked(),
            forall|k: int| 0 <= k < r@.len() ==> #[trigger] r@[k] == max_window(self.spec_tracker().seen(), k + 1),
    {
        vstd::slice::slice_to_vec(self.tracker.max_sums())
    }
}

} // verus!
