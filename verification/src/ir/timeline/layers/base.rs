//! Base layer: a compressible record of the time intervals during which a
//! task is in some state.

use std::collections::VecDeque;

use crate::interval::{
    bound_le, bound_lt, bound_max, bound_min, clip, inplace_intersection, isects, lemma_ordered_subrange,
    lemma_sum_len_bound, left_count, rank, seq_ordered, sum_len, trim_left_spec, trim_right_spec,
    upto_count, Bound, Interval, IntervalSeq, TimeInterval,
};
use vstd::prelude::*;

verus! {

/// A compressed block: an interval and the time covered inside it.
pub open spec fn block_ok(b: (Interval, u64)) -> bool {
    &&& b.0.is_finite()
    &&& b.0.well_formed()
    &&& b.1 <= b.0.spec_length()
}

/// Valid blocks, each ending at or before the start of the next one.
pub open spec fn blocks_ordered(c: Seq<(Interval, u64)>) -> bool {
    &&& forall|i: int| 0 <= i < c.len() ==> block_ok(#[trigger] c[i])
    &&& forall|i: int, j: int|
        0 <= i < j < c.len() ==> rank(#[trigger] c[i].0.b) <= rank(#[trigger] c[j].0.a)
}

/// Total time covered by the blocks of `c`.
pub open spec fn blocks_sum(c: Seq<(Interval, u64)>) -> int
    decreases c.len(),
{
    if c.len() == 0 {
        0
    } else {
        blocks_sum(c.drop_last()) + c.last().1
    }
}

/// Number of leading blocks of `c` starting before `lo`.
pub open spec fn blocks_before(c: Seq<(Interval, u64)>, lo: int) -> nat
    decreases c.len(),
{
    if c.len() == 0 {
        0
    } else if rank(c[0].0.a) < lo {
        1 + blocks_before(c.drop_first(), lo)
    } else {
        0
    }
}

/// Every interval of `s` has finite bounds.
pub open spec fn all_finite(s: Seq<Interval>) -> bool {
    forall|i: int| 0 <= i < s.len() ==> (#[trigger] s[i]).is_finite()
}

/// The part of the open interval `curr` inside `range`.
pub open spec fn open_part(curr: Option<Interval>, range: Interval) -> Seq<Interval> {
    match curr {
        Some(i) => match i.spec_intersection(range) {
            Some(x) => seq![x],
            None => Seq::empty(),
        },
        None => Seq::empty(),
    }
}

pub proof fn lemma_blocks_before_bound(c: Seq<(Interval, u64)>, lo: int)
    ensures
        blocks_before(c, lo) <= c.len(),
        forall|i: int| 0 <= i < blocks_before(c, lo) ==> rank(#[trigger] c[i].0.a) < lo,
    decreases c.len(),
{
    if c.len() > 0 && rank(c[0].0.a) < lo {
        lemma_blocks_before_bound(c.drop_first(), lo);
        assert forall|i: int| 0 <= i < blocks_before(c, lo) implies rank(#[trigger] c[i].0.a) < lo by {
            if i > 0 {
                assert(c[i] == c.drop_first()[i - 1]);
            }
        }
    }
}

pub proof fn lemma_blocks_ordered_skip(c: Seq<(Interval, u64)>, k: int)
    requires
        blocks_ordered(c),
        0 <= k <= c.len(),
    ensures
        blocks_ordered(c.skip(k)),
        blocks_ordered(c.take(k)),
{
    let u = c.skip(k);
    assert forall|i: int, j: int| 0 <= i < j < u.len() implies rank(#[trigger] u[i].0.b) <= rank(
        #[trigger] u[j].0.a,
    ) by {
        assert(u[i] == c[i + k]);
        assert(u[j] == c[j + k]);
    }
    assert forall|i: int| 0 <= i < u.len() implies block_ok(#[trigger] u[i]) by {
        assert(u[i] == c[i + k]);
    }
    let t = c.take(k);
    assert forall|i: int, j: int| 0 <= i < j < t.len() implies rank(#[trigger] t[i].0.b) <= rank(
        #[trigger] t[j].0.a,
    ) by {
        assert(t[i] == c[i]);
        assert(t[j] == c[j]);
    }
    assert forall|i: int| 0 <= i < t.len() implies block_ok(#[trigger] t[i]) by {
        assert(t[i] == c[i]);
    }
}

/// The time covered by ordered blocks fits in their extent.
pub proof fn lemma_blocks_sum_bound(c: Seq<(Interval, u64)>)
    requires
        blocks_ordered(c),
    ensures
        0 <= blocks_sum(c),
        c.len() > 0 ==> blocks_sum(c) <= rank(c.last().0.b) - rank(c[0].0.a),
    decreases c.len(),
{
    if c.len() > 0 {
        let d = c.drop_last();
        lemma_blocks_ordered_skip(c, 0);
        assert(d == c.take(c.len() - 1));
        lemma_blocks_ordered_skip(c, c.len() - 1);
        lemma_blocks_sum_bound(d);
        assert(block_ok(c.last()));
        if d.len() > 0 {
            assert(d.last() == c[c.len() - 2]);
            assert(d[0] == c[0]);
            assert(rank(c[c.len() - 2].0.b) <= rank(c[c.len() - 1].0.a));
        }
    }
}

/// Sums of prefixes of blocks never exceed the sum of all blocks.
pub proof fn lemma_blocks_sum_prefix(c: Seq<(Interval, u64)>, j: int)
    requires
        0 <= j <= c.len(),
    ensures
        0 <= blocks_sum(c.take(j)) <= blocks_sum(c),
    decreases c.len(),
{
    if c.len() > 0 {
        if j == c.len() {
            assert(c.take(j) == c);
            lemma_blocks_sum_prefix(c.drop_last(), j - 1);
            assert(c.drop_last().take(j - 1) == c.drop_last());
        } else {
            lemma_blocks_sum_prefix(c.drop_last(), j);
            assert(c.drop_last().take(j) == c.take(j));
        }
    } else {
        assert(c.take(j).len() == 0);
    }
}

/// Sums of prefixes of well-formed intervals never exceed the whole sum.
pub proof fn lemma_sum_len_prefix(s: Seq<Interval>, j: int)
    requires
        0 <= j <= s.len(),
        forall|i: int| 0 <= i < s.len() ==> rank((#[trigger] s[i]).a) <= rank(s[i].b),
    ensures
        0 <= sum_len(s.take(j)) <= sum_len(s),
    decreases s.len(),
{
    if s.len() > 0 {
        let d = s.drop_last();
        assert forall|i: int| 0 <= i < d.len() implies rank((#[trigger] d[i]).a) <= rank(d[i].b) by {
            assert(d[i] == s[i]);
        }
        assert(rank(s[s.len() - 1].a) <= rank(s[s.len() - 1].b));
        if j == s.len() {
            assert(s.take(j) == s);
            lemma_sum_len_prefix(d, j - 1);
            assert(d.take(j - 1) == d);
        } else {
            lemma_sum_len_prefix(d, j);
            assert(d.take(j) == s.take(j));
        }
    } else {
        assert(s.take(j).len() == 0);
    }
}

/// The intersections of finite intervals with an interval that does not
/// start at `+inf` nor end at `-inf` are finite, non-empty, and together
/// no longer than the intervals themselves.
pub proof fn lemma_isects_finite(s: Seq<Interval>, o: Interval)
    requires
        all_finite(s),
        forall|i: int| 0 <= i < s.len() ==> (#[trigger] s[i]).well_formed(),
        o.a != Bound::Infinity,
        o.b != Bound::MinusInfinity,
    ensures
        all_finite(isects(s, o)),
        forall|i: int|
            0 <= i < isects(s, o).len() ==> rank((#[trigger] isects(s, o)[i]).a) < rank(
                isects(s, o)[i].b,
            ),
        sum_len(isects(s, o)) <= sum_len(s),
        isects(s, o).len() <= s.len(),
    decreases s.len(),
{
    if s.len() > 0 {
        let d = s.drop_last();
        assert forall|i: int| 0 <= i < d.len() implies (#[trigger] d[i]).well_formed() && d[i].is_finite() by {
            assert(d[i] == s[i]);
        }
        lemma_isects_finite(d, o);
        let rest = isects(d, o);
        let l = s.last();
        assert(l.is_finite() && l.well_formed());
        match l.spec_intersection(o) {
            Some(x) => {
                let r = rest.push(x);
                assert(isects(s, o) == r);
                assert forall|i: int| 0 <= i < r.len() implies (#[trigger] r[i]).is_finite() && rank(
                    r[i].a,
                ) < rank(r[i].b) by {
                    if i < rest.len() {
                        assert(r[i] == rest[i]);
                    }
                }
                assert(r.drop_last() == rest);
            },
            None => {},
        }
    }
}

/// Trimming keeps a contiguous part of the intervals.
proof fn lemma_trim_window(s: Seq<Interval>, o: Interval) -> (km: (int, int))
    requires
        seq_ordered(s),
    ensures
        0 <= km.0 <= km.1 <= s.len(),
        trim_right_spec(trim_left_spec(s, o.a), o.b) == s.subrange(km.0, km.1),
{
    let t1 = trim_left_spec(s, o.a);
    let k: int = match o.a {
        Bound::Value(l) => left_count(s, l) as int,
        _ => 0,
    };
    crate::interval::lemma_left_count_splits(s, match o.a {
        Bound::Value(l) => l,
        _ => 0,
    });
    assert(t1 == s.skip(k));
    lemma_ordered_subrange(s, k, s.len() as int);
    let m: int = match o.b {
        Bound::Value(h) => upto_count(t1, h) as int,
        _ => t1.len() as int,
    };
    crate::interval::lemma_upto_count_splits(t1, match o.b {
        Bound::Value(h) => h,
        _ => 0,
    });
    let t = trim_right_spec(t1, o.b);
    assert(t =~= s.subrange(k, k + m));
    (k, k + m)
}

/// Clipping the first and last intervals keeps them finite and within
/// their former bounds.
proof fn lemma_clip_ends(t: Seq<Interval>, o: Interval)
    requires
        seq_ordered(t),
        all_finite(t),
        o.well_formed(),
    ensures
        ({
            let r = crate::interval::clip_first(crate::interval::clip_last(t, o), o);
            &&& seq_ordered(r)
            &&& r.len() == t.len()
            &&& forall|i: int|
                0 <= i < r.len() ==> (#[trigger] r[i]).is_finite() && rank(r[i].a) >= rank(t[i].a)
                    && rank(r[i].b) <= rank(t[i].b)
        }),
{
    let u = crate::interval::clip_last(t, o);
    if t.len() > 0 {
        crate::interval::lemma_clip_keeps_order(t, o, t.len() - 1);
        assert(t[t.len() - 1].well_formed());
        lemma_clip_bounds(t[t.len() - 1], o);
    }
    assert forall|i: int| 0 <= i < u.len() implies (#[trigger] u[i]).is_finite() && u[i].well_formed()
        && rank(u[i].a) >= rank(t[i].a) && rank(u[i].b) <= rank(t[i].b) by {
        assert(t[i].well_formed());
        if i == t.len() - 1 {
            lemma_clip_bounds(t[i], o);
        }
    }
    let r = crate::interval::clip_first(u, o);
    if u.len() > 0 {
        crate::interval::lemma_clip_keeps_order(u, o, 0);
        lemma_clip_bounds(u[0], o);
    }
    assert forall|i: int| 0 <= i < r.len() implies (#[trigger] r[i]).is_finite() && rank(r[i].a)
        >= rank(t[i].a) && rank(r[i].b) <= rank(t[i].b) by {
        if i == 0 {
            lemma_clip_bounds(u[0], o);
        }
    }
}

/// What trimming does to finite, ordered intervals: they stay finite, and
/// the result lies within the first and last of them.
pub proof fn lemma_inplace_bounds(s: Seq<Interval>, o: Interval)
    requires
        seq_ordered(s),
        all_finite(s),
        o.well_formed(),
    ensures
        ({
            let r = inplace_intersection(s, o);
            &&& seq_ordered(r)
            &&& all_finite(r)
            &&& r.len() > 0 ==> s.len() > 0 && rank(r[0].a) >= rank(s[0].a) && rank(r.last().b)
                <= rank(s.last().b)
        }),
{
    let (k, m) = lemma_trim_window(s, o);
    let t = s.subrange(k, m);
    lemma_ordered_subrange(s, k, m);
    assert forall|i: int| 0 <= i < t.len() implies (#[trigger] t[i]).is_finite() by {
        assert(t[i] == s[k + i]);
    }
    lemma_clip_ends(t, o);
    let r = inplace_intersection(s, o);
    if r.len() > 0 {
        assert(t[0] == s[k]);
        assert(t[t.len() - 1] == s[m - 1]);
        assert(s[0].well_formed());
        if k > 0 {
            assert(rank(s[0].b) < rank(s[k].a));
        }
        if m - 1 < s.len() - 1 {
            assert(rank(s[m - 1].b) < rank(s[s.len() - 1].a));
            assert(s[s.len() - 1].well_formed());
        }
        assert(r[r.len() - 1] == r.last());
    }
}

pub proof fn lemma_clip_bounds(i: Interval, o: Interval)
    requires
        i.is_finite(),
        i.well_formed(),
        o.well_formed(),
    ensures
        clip(i, o).is_finite(),
        rank(clip(i, o).a) >= rank(i.a),
        rank(clip(i, o).b) <= rank(i.b),
{
}

/// `next` is `base` with an interval opened at `lower`.
pub open spec fn spec_opened(base: BaseLayer, next: BaseLayer, lower: u64) -> bool {
    &&& next.blocks() == base.blocks()
    &&& next.plain_seq() == base.plain_seq()
    &&& next.current() == Some(Interval { a: Bound::Value(lower), b: Bound::Infinity })
}

/// `next` is `base` with its open interval, if any, closed at `upper`.
pub open spec fn spec_closed(base: BaseLayer, next: BaseLayer, upper: u64) -> bool {
    &&& next.blocks() == base.blocks()
    &&& next.current() is None
    &&& next.plain_seq() == match base.current() {
        Some(i) => base.plain_seq().push(Interval { a: i.a, b: Bound::Value(upper) }),
        None => base.plain_seq(),
    }
}

/// `next` records the same intervals as `base`.
pub open spec fn spec_same(base: BaseLayer, next: BaseLayer) -> bool {
    &&& next.blocks() == base.blocks()
    &&& next.plain_seq() == base.plain_seq()
    &&& next.current() == base.current()
}

/// What compressing the plain intervals of `base` up to `until` gives.
pub open spec fn spec_compress_post(base: BaseLayer, next: BaseLayer, until: u64, new_block: bool) -> bool {
    &&& next.current() == base.current()
    &&& ({
                let s = base.plain_seq();
                let k = left_count(s, until) as int;
                let cut = k < s.len() && s[k].spec_contains(until);
                let upper = if cut {
                    Bound::Value(until)
                } else {
                    s[k - 1].b
                };
                let cov = if cut {
                    sum_len(s.take(k)) + until - rank(s[k].a)
                } else {
                    sum_len(s.take(k))
                };
                let block = (Interval { a: s[0].a, b: upper }, cov as u64);
                &&& k == 0 ==> next.plain_seq() == s && next.blocks() == base.blocks()
                &&& k > 0 ==> {
                    &&& next.plain_seq() == if cut {
                        s.skip(k).update(0, Interval { a: Bound::Value(until), b: s[k].b })
                    } else {
                        s.skip(k)
                    }
                    &&& next.blocks() == if new_block || base.blocks().len() == 0 {
                        base.blocks().push(block)
                    } else {
                        base.blocks().drop_last().push(
                            (
                                Interval {
                                    a: base.blocks().last().0.a,
                                    b: upper,
                                },
                                (base.blocks().last().1 + cov) as u64,
                            ),
                        )
                    }
                }
            })
}

/// What compressing all plain intervals of `base` gives.
pub open spec fn spec_compress_all_post(base: BaseLayer, next: BaseLayer, new_block: bool) -> bool {
    &&& next.current() == base.current()
    &&& next.plain_seq() == Seq::<Interval>::empty()
    &&& base.plain_seq().len() == 0 ==> next.blocks() == base.blocks()
    &&& base.plain_seq().len() > 0 ==> {
                let s = base.plain_seq();
                let block = (Interval { a: s[0].a, b: s.last().b }, sum_len(s) as u64);
                next.blocks() == if new_block || base.blocks().len() == 0 {
                    base.blocks().push(block)
                } else {
                    base.blocks().drop_last().push(
                        (
                            Interval { a: base.blocks().last().0.a, b: s.last().b },
                            (base.blocks().last().1 + sum_len(s)) as u64,
                        ),
                    )
                }
            }
}

/// Layers recording the same intervals cover the same time.
pub proof fn lemma_same_coverage(a: BaseLayer, b: BaseLayer, range: Interval)
    requires
        a == b || spec_same(a, b),
    ensures
        a.spec_coverage(range) == b.spec_coverage(range),
{
}

/// A compressible record of time intervals.
///
/// Closed intervals are kept in order; the oldest ones can be compressed
/// into blocks that only remember their extent and the time they cover.
/// At most one interval, open on the right, is still being recorded.
pub struct BaseLayer {
    compressed: VecDeque<(TimeInterval, u64)>,
    plains: IntervalSeq,
    curr_interval: Option<TimeInterval>,
}

impl BaseLayer {
    /// The compressed blocks, oldest first.
    pub closed spec fn blocks(&self) -> Seq<(Interval, u64)> {
        self.compressed@
    }

    /// The closed intervals that are not compressed.
    pub closed spec fn plain_seq(&self) -> Seq<Interval> {
        self.plains@
    }

    /// The interval being recorded, open on the right.
    pub closed spec fn current(&self) -> Option<Interval> {
        self.curr_interval
    }

    /// An interval may be opened at `x`: after every recorded interval.
    pub open spec fn spec_can_open(&self, x: u64) -> bool {
        &&& self.plain_seq().len() > 0 ==> x > rank(self.plain_seq().last().b)
        &&& self.plain_seq().len() == 0 && self.blocks().len() > 0 ==> x >= rank(
            self.blocks().last().0.b,
        )
    }

    /// The open interval may be closed at `upper`.
    pub open spec fn spec_can_close(&self, upper: u64) -> bool {
        self.current() matches Some(i) ==> upper >= rank(i.a)
    }

    pub closed spec fn wf(&self) -> bool {
        &&& self.plains.wf()
        &&& all_finite(self.plains@)
        &&& blocks_ordered(self.compressed@)
        &&& self.compressed@.len() > 0 && self.plains@.len() > 0 ==> rank(
            self.compressed@.last().0.b,
        ) <= rank(self.plains@[0].a)
        &&& self.curr_interval matches Some(i) ==> {
            &&& i.b == Bound::Infinity
            &&& i.a matches Bound::Value(x) && self.spec_can_open(x)
        }
    }

    /// Facts that a well-formed layer keeps.
    pub proof fn lemma_wf(&self)
        requires
            self.wf(),
        ensures
            seq_ordered(self.plain_seq()),
            all_finite(self.plain_seq()),
            blocks_ordered(self.blocks()),
            self.current() matches Some(i) ==> i.b == Bound::Infinity && i.a is Value,
    {
        self.plains.lemma_ordered();
    }

    /// The time covered inside `range`.
    pub open spec fn spec_coverage(&self, range: Interval) -> int {
        (match range.a {
            Bound::Value(start) => blocks_sum(
                self.blocks().skip(blocks_before(self.blocks(), start as int) as int),
            ),
            _ => 0,
        }) + sum_len(isects(self.plain_seq(), range)) + sum_len(open_part(self.current(), range))
    }

    pub fn new() -> (r: Self)
        ensures
            r.wf(),
            r.blocks() == Seq::<(Interval, u64)>::empty(),
            r.plain_seq() == Seq::<Interval>::empty(),
            r.current() is None,
    {
        Self { compressed: VecDeque::new(), plains: IntervalSeq::new(), curr_interval: None }
    }

    fn push_compressed_block(&mut self, block: (TimeInterval, u64))
        ensures
            final(self).blocks() == old(self).blocks().push(block),
            final(self).plains == old(self).plains,
            final(self).curr_interval == old(self).curr_interval,
    {
        self.compressed.push_back(block)
    }

    fn merge_compressed_block(&mut self, block: (TimeInterval, u64))
        requires
            blocks_ordered(old(self).blocks()),
            block_ok(block),
            old(self).blocks().len() > 0 ==> rank(old(self).blocks().last().0.b) <= rank(block.0.a),
        ensures
            final(self).plains == old(self).plains,
            final(self).curr_interval == old(self).curr_interval,
            blocks_ordered(final(self).blocks()),
            final(self).blocks().len() > 0,
            final(self).blocks().last().0.b == block.0.b,
            final(self).blocks() == if old(self).blocks().len() == 0 {
                seq![block]
            } else {
                old(self).blocks().drop_last().push(
                    (
                        Interval {
                            a: old(self).blocks().last().0.a,
                            b: block.0.b,
                        },
                        (old(self).blocks().last().1 + block.1) as u64,
                    ),
                )
            },
    {
        let n = self.compressed.len();
        if n > 0 {
            let last = self.compressed[n - 1];
            proof {
                assert(block_ok(last));
                assert(bound_min(last.0.a, block.0.a) == last.0.a);
                assert(bound_max(last.0.b, block.0.b) == block.0.b);
            }
            let merged = (last.0.extent(&block.0), last.1 + block.1);
            let ghost c = self.compressed@;
            self.compressed.pop_back();
            self.compressed.push_back(merged);
            proof {
                let d = self.compressed@;
                assert(d == c.drop_last().push(merged));
                assert forall|i: int, j: int| 0 <= i < j < d.len() implies rank(
                    #[trigger] d[i].0.b,
                ) <= rank(#[trigger] d[j].0.a) by {
                    assert(rank(c[i].0.b) <= rank(c[n - 1].0.a));
                    assert(block_ok(c[i]));
                    if j < n - 1 {
                        assert(rank(c[i].0.b) <= rank(c[j].0.a));
                    }
                }
                assert forall|i: int| 0 <= i < d.len() implies block_ok(#[trigger] d[i]) by {
                    if i < n - 1 {
                        assert(block_ok(c[i]));
                    }
                }
            }
        } else {
            self.compressed.push_back(block);
            proof {
                assert(self.compressed@ == seq![block]);
            }
        }
    }

    /// Compresses all plain intervals in the range `(-inf, until]`.
    /// If `new_block` is true, the compressed block is added after the other
    /// blocks. Otherwise, it is merged with the last block.
    pub fn compress(&mut self, until: u64, new_block: bool)
        requires
            old(self).wf(),
        ensures
            final(self).wf(),
            spec_compress_post(*old(self), *final(self), until, new_block),
    {
        let ghost s = self.plains@;
        let ghost c = self.compressed@;
        proof {
            self.plains.lemma_ordered();
            crate::interval::lemma_left_count_splits(s, until);
        }
        let compressed = self.plains.compress_until(until);
        proof {
            let k = left_count(s, until) as int;
            if k > 0 {
                let p = compressed->0;
                assert forall|i: int| 0 <= i < k implies (#[trigger] s[i]).is_finite() by {}
                lemma_sum_len_bound(s, k);
                assert(s[k - 1].well_formed());
                assert(s[0].well_formed());
                if k > 1 {
                    assert(rank(s[0].b) < rank(s[k - 1].a));
                }
                let t = self.plains@;
                if k < s.len() && s[k].spec_contains(until) {
                    assert(rank(s[k - 1].b) < rank(s[k].a));
                    assert(s[k].is_finite());
                    assert(t[0].a == Bound::Value(until));
                    assert forall|i: int| 0 <= i < t.len() implies (#[trigger] t[i]).is_finite() by {
                        if i > 0 {
                            assert(t[i] == s[i + k]);
                        }
                    }
                } else {
                    assert forall|i: int| 0 <= i < t.len() implies (#[trigger] t[i]).is_finite() by {
                        assert(t[i] == s[i + k]);
                    }
                    if t.len() > 0 {
                        assert(t[0] == s[k]);
                        assert(rank(s[k - 1].b) < rank(s[k].a));
                    }
                }
                assert(block_ok(p));
                if c.len() > 0 {
                    assert(rank(c.last().0.b) <= rank(s[0].a));
                }
                if t.len() > 0 {
                    assert(t.last().b == s.last().b);
                }
            }
        }

        if new_block {
            if let Some(v) = compressed {
                self.push_compressed_block(v);
                proof {
                    let d = self.compressed@;
                    assert forall|i: int, j: int| 0 <= i < j < d.len() implies rank(
                        #[trigger] d[i].0.b,
                    ) <= rank(#[trigger] d[j].0.a) by {
                        if j == d.len() - 1 && i < c.len() - 1 {
                            assert(rank(c[i].0.b) <= rank(c[c.len() - 1].0.a));
                            assert(block_ok(c[c.len() - 1]));
                        }
                    }
                    assert forall|i: int| 0 <= i < d.len() implies block_ok(#[trigger] d[i]) by {
                        if i < c.len() {
                            assert(block_ok(c[i]));
                        }
                    }
                }
            }
        } else if let Some(v) = compressed {
            self.merge_compressed_block(v);
        }
        proof {
            let k = left_count(s, until) as int;
            if k > 0 {
                let v = compressed->0;
                if new_block || c.len() == 0 {
                    assert(self.compressed@ =~= c.push(v));
                } else {
                    assert(self.compressed@ =~= c.drop_last().push(
                        (Interval { a: c.last().0.a, b: v.0.b }, (c.last().1 + v.1) as u64),
                    ));
                }
            }
        }
    }

    /// Compresses all plain intervals.
    /// If `new_block` is true, the compressed block is added after the other
    /// blocks. Otherwise, it is merged with the last block.
    pub fn compress_all(&mut self, new_block: bool)
        requires
            old(self).wf(),
        ensures
            final(self).wf(),
            spec_compress_all_post(*old(self), *final(self), new_block),
    {
        let until = u64::MAX;
        proof {
            let s = self.plain_seq();
            self.plains.lemma_ordered();
            crate::interval::lemma_left_count_splits(s, until);
            if s.len() > 0 {
                assert(s.last().is_finite());
                crate::interval::lemma_left_split_is_count(s, until, s.len() as int);
                assert(s.take(s.len() as int) == s);
            }
        }
        self.compress(until, new_block);
        proof {
            let s = old(self).plain_seq();
            if s.len() > 0 {
                assert(s.skip(s.len() as int) =~= Seq::<Interval>::empty());
            }
            assert(self.plain_seq() =~= Seq::<Interval>::empty());
        }
    }

    /// Opens a new interval at `lower`, replacing the open one if any.
    pub fn push_lower_bound(&mut self, lower: u64)
        requires
            old(self).wf(),
            old(self).spec_can_open(lower),
        ensures
            final(self).wf(),
            final(self).blocks() == old(self).blocks(),
            final(self).plain_seq() == old(self).plain_seq(),
            final(self).current() == Some(Interval { a: Bound::Value(lower), b: Bound::Infinity }),
    {
        self.curr_interval = Some(Interval::infinite_right(lower));
    }

    /// Closes the open interval at `upper` and records it. Nothing happens
    /// when no interval is open.
    pub fn push_upper_bound(&mut self, upper: u64)
        requires
            old(self).wf(),
            old(self).spec_can_close(upper),
        ensures
            final(self).wf(),
            final(self).blocks() == old(self).blocks(),
            final(self).current() is None,
            final(self).plain_seq() == match old(self).current() {
                Some(i) => old(self).plain_seq().push(Interval { a: i.a, b: Bound::Value(upper) }),
                None => old(self).plain_seq(),
            },
    {
        if let Some(mut interval) = self.curr_interval.take() {
            interval.set_upper_bound(upper);
            proof {
                self.plains.lemma_ordered();
            }
            self.plains.push(interval);
            proof {
                let s = self.plains@;
                assert forall|i: int| 0 <= i < s.len() implies (#[trigger] s[i]).is_finite() by {
                    if i < s.len() - 1 {
                        assert(s[i] == old(self).plains@[i]);
                    }
                }
                if self.compressed@.len() > 0 && old(self).plains@.len() > 0 {
                    assert(s[0] == old(self).plains@[0]);
                }
            }
        }
    }

    /// Returns true if no compressed block reaches into `range`.
    pub fn only_plain_intervals_in(&self, range: &TimeInterval) -> (r: bool)
        ensures
            r == (self.blocks().len() == 0 || rank(self.blocks().last().0.b) < rank(range.a)),
    {
        let n = self.compressed.len();
        if n > 0 {
            let last = &self.compressed[n - 1];
            return bound_lt(last.0.upper_bound(), range.lower_bound());
        }
        true
    }

    /// Returns the compressed blocks starting at or after `start`.
    pub fn compressed(&self, start: u64) -> (r: Vec<(TimeInterval, u64)>)
        ensures
            r@ == self.blocks().skip(blocks_before(self.blocks(), start as int) as int),
    {
        let ghost c = self.compressed@;
        let n = self.compressed.len();
        let mut i: usize = 0;
        proof {
            assert(c.skip(0) == c);
        }
        while i < n && bound_lt(self.compressed[i].0.lower_bound(), Bound::Value(start))
            invariant
                c == self.compressed@,
                n == c.len(),
                0 <= i <= n,
                blocks_before(c, start as int) == i + blocks_before(c.skip(i as int), start as int),
            decreases n - i,
        {
            proof {
                assert(c.skip(i as int).drop_first() == c.skip(i + 1));
            }
            i += 1;
        }
        proof {
            if i < n {
                assert(c.skip(i as int)[0] == c[i as int]);
            }
        }
        let mut ret: Vec<(TimeInterval, u64)> = Vec::new();
        let mut j: usize = i;
        while j < n
            invariant
                c == self.compressed@,
                n == c.len(),
                i <= j <= n,
                blocks_before(c, start as int) == i,
                ret@ == c.subrange(i as int, j as int),
            decreases n - j,
        {
            ret.push(self.compressed[j]);
            j += 1;
        }
        proof {
            assert(c.subrange(i as int, n as int) == c.skip(i as int));
        }
        ret
    }

    /// Returns the recorded intervals intersected with `range`, the open
    /// interval last.
    pub fn plain_intervals(&mut self, range: &TimeInterval) -> (r: Vec<TimeInterval>)
        requires
            old(self).wf(),
            range.a != Bound::Infinity,
            range.b != Bound::MinusInfinity,
        ensures
            final(self).wf(),
            final(self).blocks() == old(self).blocks(),
            final(self).plain_seq() == old(self).plain_seq(),
            final(self).current() == old(self).current(),
            r@ == isects(old(self).plain_seq(), *range) + open_part(old(self).current(), *range),
    {
        let mut ret = self.plains.intersection(*range);
        let ghost p = ret@;
        if let Some(i) = &self.curr_interval {
            if let Some(x) = i.intersection(range) {
                ret.push(x);
            }
        }
        proof {
            assert(ret@ =~= p + open_part(old(self).current(), *range));
        }
        ret
    }

    /// Discards the blocks starting before `tracking_range` and the parts of
    /// the plain intervals outside of it.
    pub fn trim(&mut self, tracking_range: &TimeInterval)
        requires
            old(self).wf(),
            tracking_range.well_formed(),
        ensures
            final(self).wf(),
            final(self).current() == old(self).current(),
            final(self).blocks() == old(self).blocks().skip(
                blocks_before(old(self).blocks(), rank(tracking_range.a)) as int,
            ),
            final(self).plain_seq() == inplace_intersection(old(self).plain_seq(), *tracking_range),
    {
        let ghost c = self.compressed@;
        let ghost lo = rank(tracking_range.a);
        while self.compressed.len() > 0 && bound_lt(
            self.compressed[0].0.lower_bound(),
            tracking_range.lower_bound(),
        )
            invariant
                c.len() >= self.compressed@.len(),
                self.compressed@ == c.skip(c.len() - self.compressed@.len()),
                blocks_before(c, lo) == (c.len() - self.compressed@.len()) + blocks_before(
                    self.compressed@,
                    lo,
                ),
                lo == rank(tracking_range.a),
                old(self).wf(),
                self.plains == old(self).plains,
                self.curr_interval == old(self).curr_interval,
                c == old(self).compressed@,
            decreases self.compressed@.len(),
        {
            let ghost d = self.compressed@;
            self.compressed.pop_front();
            proof {
                assert(d.drop_first() == self.compressed@);
                assert(self.compressed@ == c.skip(c.len() - self.compressed@.len()));
            }
        }
        proof {
            lemma_blocks_ordered_skip(c, c.len() - self.compressed@.len());
            self.plains.lemma_ordered();
            lemma_inplace_bounds(self.plains@, *tracking_range);
            let d = self.compressed@;
            if d.len() > 0 {
                assert(d.last() == c.last());
            }
        }
        self.plains.intersection_inplace(tracking_range);
    }

    /// Returns the time covered inside `range`: by the blocks starting at or
    /// after its start, and by the recorded intervals.
    pub fn coverage(&mut self, range: &TimeInterval) -> (r: u64)
        requires
            old(self).wf(),
            range.a != Bound::Infinity,
            range.b != Bound::MinusInfinity,
            old(self).current() matches Some(i) && i.spec_intersection(*range) is Some
                ==> range.b is Value,
        ensures
            final(self).wf(),
            final(self).blocks() == old(self).blocks(),
            final(self).plain_seq() == old(self).plain_seq(),
            final(self).current() == old(self).current(),
            r == old(self).spec_coverage(*range),
    {
        proof {
            self.lemma_coverage_bound(*range);
        }
        let mut ret: u64 = 0;
        let ghost c = self.compressed@;

        if let Bound::Value(start) = range.lower_bound() {
            let blocks = self.compressed(start);
            let ghost b = blocks@;
            proof {
                lemma_blocks_before_bound(c, start as int);
                lemma_blocks_ordered_skip(c, blocks_before(c, start as int) as int);
            }
            let mut i: usize = 0;
            while i < blocks.len()
                invariant
                    b == blocks@,
                    0 <= i <= b.len(),
                    ret == blocks_sum(b.take(i as int)),
                    blocks_sum(b) <= u64::MAX,
                decreases b.len() - i,
            {
                proof {
                    assert(b.take(i + 1).drop_last() == b.take(i as int));
                    lemma_blocks_sum_prefix(b, i + 1);
                }
                ret = ret + blocks[i].1;
                i += 1;
            }
            proof {
                assert(b.take(b.len() as int) == b);
            }
        }
        let ghost before = ret;
        let intervals = self.plain_intervals(range);
        let ghost v = intervals@;
        let mut j: usize = 0;
        while j < intervals.len()
            invariant
                v == intervals@,
                0 <= j <= v.len(),
                all_finite(v),
                forall|k: int| 0 <= k < v.len() ==> rank((#[trigger] v[k]).a) < rank(v[k].b),
                ret == before + sum_len(v.take(j as int)),
                before + sum_len(v) <= u64::MAX,
            decreases v.len() - j,
        {
            proof {
                assert(v.take(j + 1).drop_last() == v.take(j as int));
                assert(v.take(j + 1).last() == v[j as int]);
                lemma_sum_len_prefix(v, j + 1);
            }
            ret = ret + intervals[j].duration_unwrap();
            j += 1;
        }
        proof {
            assert(v.take(v.len() as int) == v);
        }
        ret
    }

    /// The intervals recorded inside `range` are finite and non-empty, and
    /// together with the blocks they cover no more than a `u64` can hold.
    pub proof fn lemma_coverage_bound(&self, range: Interval)
        requires
            self.wf(),
            range.a != Bound::Infinity,
            range.b != Bound::MinusInfinity,
            self.current() matches Some(i) && i.spec_intersection(range) is Some ==> range.b is Value,
        ensures
            ({
                let v = isects(self.plain_seq(), range) + open_part(self.current(), range);
                let b = match range.a {
                    Bound::Value(start) => blocks_sum(
                        self.blocks().skip(blocks_before(self.blocks(), start as int) as int),
                    ),
                    _ => 0,
                };
                &&& all_finite(v)
                &&& forall|k: int| 0 <= k < v.len() ==> rank((#[trigger] v[k]).a) < rank(v[k].b)
                &&& 0 <= b
                &&& 0 <= sum_len(v)
                &&& b + sum_len(v) <= u64::MAX
                &&& b + sum_len(v) == self.spec_coverage(range)
            }),
    {
        let s = self.plain_seq();
        let c = self.blocks();
        let p = isects(s, range);
        let o = open_part(self.current(), range);
        let v = p + o;
        self.plains.lemma_ordered();
        lemma_isects_finite(s, range);
        lemma_blocks_sum_bound(c);
        if s.len() > 0 {
            assert forall|i: int| 0 <= i < s.len() implies (#[trigger] s[i]).is_finite() by {}
            lemma_sum_len_bound(s, s.len() as int);
            assert(s.take(s.len() as int) == s);
            assert(s[0].well_formed());
            assert(s[s.len() - 1].well_formed());
        } else {
            assert(p.len() == 0);
        }
        // the open part
        let cl: int = match self.current() {
            Some(i) => match i.spec_intersection(range) {
                Some(x) => x.spec_length(),
                None => 0,
            },
            None => 0,
        };
        if o.len() > 0 {
            assert(v == p.push(o[0]));
            assert(v.drop_last() == p);
            assert(o.drop_last() =~= Seq::<Interval>::empty());
            reveal_with_fuel(sum_len, 2);
            assert(sum_len(o) == cl);
        } else {
            assert(v == p);
        }
        assert(sum_len(v) == sum_len(p) + cl);
        assert forall|k: int| 0 <= k < v.len() implies (#[trigger] v[k]).is_finite() && rank(v[k].a)
            < rank(v[k].b) by {
            if k < p.len() {
                assert(v[k] == p[k]);
            }
        }
        // the blocks
        let bsum: int = match range.a {
            Bound::Value(start) => {
                let k = blocks_before(c, start as int) as int;
                lemma_blocks_before_bound(c, start as int);
                lemma_blocks_ordered_skip(c, k);
                lemma_blocks_sum_bound(c.skip(k));
                if k < c.len() {
                    assert(c.skip(k)[0] == c[k]);
                    assert(c.skip(k).last() == c.last());
                    assert(block_ok(c[0]));
                    if k > 0 {
                        assert(rank(c[0].0.b) <= rank(c[k].0.a));
                    }
                } else {
                    assert(c.skip(k).len() == 0);
                }
                blocks_sum(c.skip(k))
            },
            _ => 0,
        };
        if c.len() > 0 {
            assert(block_ok(c[0]));
            assert(block_ok(c.last()));
        }
        assert(0 <= bsum);
        assert(c.len() > 0 ==> bsum <= rank(c.last().0.b) - rank(c[0].0.a));
        assert(c.len() == 0 ==> bsum == 0);
        let pb = sum_len(p);
        lemma_sum_len_prefix(p, 0);
        assert(0 <= pb);
        assert(s.len() > 0 ==> pb <= rank(s.last().b) - rank(s[0].a));
        assert(s.len() == 0 ==> pb == 0);
        assert(0 <= cl);
        if o.len() > 0 {
            let i = self.current()->0;
            let x = i.spec_intersection(range)->0;
            assert(range.b is Value);
            assert(i.a is Value);
            assert(cl <= rank(range.b) - rank(i.a));
            assert(rank(range.b) <= u64::MAX);
            if s.len() > 0 {
                assert(rank(i.a) > rank(s.last().b));
                assert(c.len() > 0 ==> rank(c.last().0.b) <= rank(s[0].a));
            } else if c.len() > 0 {
                assert(rank(i.a) >= rank(c.last().0.b));
            }
            assert(bsum + pb + cl <= u64::MAX);
        } else {
            assert(cl == 0);
            if s.len() > 0 {
                assert(c.len() > 0 ==> rank(c.last().0.b) <= rank(s[0].a));
                assert(s.last().is_finite());
            } else if c.len() > 0 {
                assert(c.last().0.is_finite());
            }
            assert(bsum + pb + cl <= u64::MAX);
        }
    }

    /// Whether an interval may be opened at `x`.
    pub fn can_open(&self, x: u64) -> (r: bool)
        requires
            self.wf(),
        ensures
            r == self.spec_can_open(x),
    {
        proof {
            self.plains.lemma_ordered();
        }
        let n = self.plains.len();
        if n > 0 {
            let last = self.plains.iter()[n - 1];
            proof {
                assert(last.is_finite());
            }
            return bound_lt(last.upper_bound(), Bound::Value(x));
        }
        let m = self.compressed.len();
        if m > 0 {
            return bound_le(self.compressed[m - 1].0.upper_bound(), Bound::Value(x));
        }
        true
    }

    /// Whether the open interval may be closed at `upper`.
    pub fn can_close(&self, upper: u64) -> (r: bool)
        ensures
            r == self.spec_can_close(upper),
    {
        match self.curr_interval {
            Some(i) => bound_le(i.lower_bound(), Bound::Value(upper)),
            None => true,
        }
    }

    /// The closed intervals that are not compressed, oldest first.
    pub fn plains(&self) -> (r: &[TimeInterval])
        ensures
            r@ == self.plain_seq(),
    {
        self.plains.iter()
    }

    /// Returns the number of plain intervals.
    pub fn plain_interval_nb(&self) -> (r: usize)
        ensures
            r == self.plain_seq().len(),
    {
        self.plains.len()
    }
}

impl Default for BaseLayer {
    fn default() -> (r: Self)
        ensures
            r.wf(),
            r.blocks() == Seq::<(Interval, u64)>::empty(),
            r.plain_seq() == Seq::<Interval>::empty(),
            r.current() is None,
    {
        Self::new()
    }
}

} // verus!
