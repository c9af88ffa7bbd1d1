//! Time intervals.
//!
//! Intervals are half-open `[a, b)`; either end may be unbounded.

use std::collections::BTreeMap;
use vstd::prelude::*;

verus! {

broadcast use vstd::std_specs::btree::group_btree_axioms, vstd::laws_cmp::group_laws_cmp;

/// An interval bound.
#[derive(PartialEq, Eq, PartialOrd, Ord, Clone, Copy, Debug, Structural)]
pub enum Bound {
    MinusInfinity,
    Value(u64),
    Infinity,
}

/// Position of a bound on the extended integer line: `-inf` below every
/// value, `+inf` above every `u64`.
pub open spec fn rank(b: Bound) -> int {
    match b {
        Bound::MinusInfinity => -1,
        Bound::Value(v) => v as int,
        Bound::Infinity => u64::MAX as int + 1,
    }
}

pub open spec fn bound_min(a: Bound, b: Bound) -> Bound {
    if rank(a) <= rank(b) { a } else { b }
}

pub open spec fn bound_max(a: Bound, b: Bound) -> Bound {
    if rank(a) >= rank(b) { a } else { b }
}

/// Two bounds of equal rank are the same bound.
pub proof fn lemma_rank_injective(a: Bound, b: Bound)
    ensures
        rank(a) == rank(b) ==> a == b,
{
}

impl Bound {
    pub fn value(&self) -> (r: Option<u64>)
        ensures
            r == (match *self {
                Bound::Value(v) => Some(v),
                _ => None,
            }),
    {
        match self {
            Bound::Value(value) => Some(*value),
            _ => None,
        }
    }
}

/// `a < b` on bounds.
pub fn bound_lt(a: Bound, b: Bound) -> (r: bool)
    ensures
        r == (rank(a) < rank(b)),
{
    match (a, b) {
        (Bound::Value(x), Bound::Value(y)) => x < y,
        (Bound::MinusInfinity, Bound::MinusInfinity) => false,
        (Bound::MinusInfinity, _) => true,
        (_, Bound::MinusInfinity) => false,
        (Bound::Infinity, _) => false,
        (_, Bound::Infinity) => true,
    }
}

/// `a <= b` on bounds.
pub fn bound_le(a: Bound, b: Bound) -> (r: bool)
    ensures
        r == (rank(a) <= rank(b)),
{
    !bound_lt(b, a)
}

/// The smaller of two bounds.
pub fn min_bound(a: Bound, b: Bound) -> (r: Bound)
    ensures
        r == bound_min(a, b),
{
    if bound_le(a, b) { a } else { b }
}

/// The greater of two bounds.
pub fn max_bound(a: Bound, b: Bound) -> (r: Bound)
    ensures
        r == bound_max(a, b),
{
    if bound_le(b, a) { a } else { b }
}


/// A half-open interval `[a, b)`.
#[derive(PartialEq, Eq, Clone, Copy, Debug, Structural)]
pub struct Interval {
    pub a: Bound,
    pub b: Bound,
}

/// A time interval.
pub type TimeInterval = Interval;

impl Interval {
    /// True if `v` lies in `[a, b)`.
    pub open spec fn spec_contains(self, v: u64) -> bool {
        rank(self.a) <= v < rank(self.b)
    }

    /// True if the interval ends at or before `v`.
    pub open spec fn spec_left_of(self, v: u64) -> bool {
        rank(self.b) <= v
    }

    /// True if the interval starts after `v`.
    pub open spec fn spec_right_of(self, v: u64) -> bool {
        rank(self.a) > v
    }

    pub open spec fn spec_disjoint(self, other: Interval) -> bool {
        rank(self.a) >= rank(other.b) || rank(other.a) >= rank(self.b)
    }

    /// The intersection of two intervals, if it is not empty.
    pub open spec fn spec_intersection(self, other: Interval) -> Option<Interval> {
        let a = bound_max(self.a, other.a);
        let b = bound_min(self.b, other.b);
        if rank(a) < rank(b) {
            Some(Interval { a, b })
        } else {
            None
        }
    }

    /// A well-formed interval: its lower bound is not above its upper bound,
    /// it does not start at `+inf` and does not end at `-inf`.
    pub open spec fn well_formed(self) -> bool {
        &&& rank(self.a) <= rank(self.b)
        &&& self.a != Bound::Infinity
        &&& self.b != Bound::MinusInfinity
    }

    /// Both bounds are finite.
    pub open spec fn is_finite(self) -> bool {
        self.a is Value && self.b is Value
    }

    /// Length of a finite, well-formed interval.
    pub open spec fn spec_length(self) -> int {
        rank(self.b) - rank(self.a)
    }

    pub fn new(a: Bound, b: Bound) -> (r: Self)
        ensures
            r == (Interval { a, b }),
    {
        Self { a, b }
    }

    /// Builds the smallest interval covering `self` and `other`.
    pub fn extent(&self, other: &Interval) -> (r: Interval)
        ensures
            r.a == bound_min(self.a, other.a),
            r.b == bound_max(self.b, other.b),
    {
        let a = min_bound(self.a, other.a);
        let b = max_bound(self.b, other.b);
        Interval::new(a, b)
    }

    pub fn lower_bound(&self) -> (r: Bound)
        ensures
            r == self.a,
    {
        self.a
    }

    pub fn upper_bound(&self) -> (r: Bound)
        ensures
            r == self.b,
    {
        self.b
    }

    /// Returns true if `self` and `other` are disjoint.
    pub fn is_disjoint_with(&self, other: &Interval) -> (r: bool)
        ensures
            r == self.spec_disjoint(*other),
    {
        bound_le(other.b, self.a) || bound_le(self.b, other.a)
    }

    /// Returns true if `self` ends at or before `value`.
    pub fn is_left_of(&self, value: &u64) -> (r: bool)
        requires
            self.b != Bound::MinusInfinity,
        ensures
            r == self.spec_left_of(*value),
    {
        match self.upper_bound() {
            Bound::Infinity => false,
            Bound::MinusInfinity => false,
            Bound::Value(v) => v <= *value,
        }
    }

    /// Returns true if `self` starts after `value`.
    pub fn is_right_of(&self, value: &u64) -> (r: bool)
        requires
            self.a != Bound::Infinity,
        ensures
            r == self.spec_right_of(*value),
    {
        match self.lower_bound() {
            Bound::MinusInfinity => false,
            Bound::Infinity => true,
            Bound::Value(v) => v > *value,
        }
    }

    /// Returns true if `value` is contained in `self`.
    pub fn contains(&self, value: &u64) -> (r: bool)
        ensures
            r == self.spec_contains(*value),
    {
        let v = Bound::Value(*value);
        bound_le(self.lower_bound(), v) && bound_lt(v, self.upper_bound())
    }

    /// Returns the intersection of `self` and `other` if it is not empty.
    pub fn intersection(&self, other: &Interval) -> (r: Option<Interval>)
        ensures
            r == self.spec_intersection(*other),
    {
        let a = max_bound(self.a, other.a);
        let b = min_bound(self.b, other.b);
        if bound_lt(a, b) {
            return Some(Interval::new(a, b));
        }
        None
    }

    /// Returns the distance between the lower and upper bounds, `Infinity`
    /// when one of them is unbounded.
    pub fn span(&self) -> (r: Bound)
        requires
            self.is_finite() ==> rank(self.a) <= rank(self.b),
        ensures
            self.is_finite() ==> r == Bound::Value((rank(self.b) - rank(self.a)) as u64),
            !self.is_finite() ==> r == Bound::Infinity,
    {
        match (&self.a, &self.b) {
            (Bound::Value(a), Bound::Value(b)) => Bound::Value(*b - *a),
            _ => Bound::Infinity,
        }
    }

    /// Replaces `self` by its intersection with `other` when they overlap.
    pub fn intersect_inplace_if_overlapping(&mut self, other: &Interval)
        ensures
            !old(self).spec_disjoint(*other) ==> *final(self) == (Interval {
                a: bound_max(old(self).a, other.a),
                b: bound_min(old(self).b, other.b),
            }),
            old(self).spec_disjoint(*other) ==> *final(self) == *old(self),
    {
        if !self.is_disjoint_with(other) {
            let a = max_bound(self.a, other.a);
            let b = min_bound(self.b, other.b);
            self.a = a;
            self.b = b;
        }
    }

    /// Builds the `(-inf, inf)` interval.
    pub fn infinite() -> (r: Self)
        ensures
            r == (Interval { a: Bound::MinusInfinity, b: Bound::Infinity }),
    {
        Self::new(Bound::MinusInfinity, Bound::Infinity)
    }

    /// Builds the `[lower, inf)` interval.
    pub fn infinite_right(lower: u64) -> (r: Self)
        ensures
            r == (Interval { a: Bound::Value(lower), b: Bound::Infinity }),
    {
        Self::new(Bound::Value(lower), Bound::Infinity)
    }

    /// Returns true if the interval has the form `[a, +inf)`.
    pub fn is_infinite_right(&self) -> (r: bool)
        ensures
            r == (self.a is Value && self.b == Bound::Infinity),
    {
        match (self.a, self.b) {
            (Bound::Value(_), Bound::Infinity) => true,
            _ => false,
        }
    }

    /// Builds the `[a, b)` interval.
    pub fn range(a: u64, b: u64) -> (r: Self)
        ensures
            r == (Interval { a: Bound::Value(a), b: Bound::Value(b) }),
    {
        Self { a: Bound::Value(a), b: Bound::Value(b) }
    }

    pub fn set_lower_bound(&mut self, lower: u64)
        requires
            lower < rank(old(self).b),
        ensures
            *final(self) == (Interval { a: Bound::Value(lower), b: old(self).b }),
    {
        self.a = Bound::Value(lower);
    }

    pub fn set_upper_bound(&mut self, upper: u64)
        requires
            upper >= rank(old(self).a),
        ensures
            *final(self) == (Interval { a: old(self).a, b: Bound::Value(upper) }),
    {
        self.b = Bound::Value(upper);
    }

    /// Duration of a time interval, `Infinity` when it is unbounded.
    pub fn duration(&self) -> (r: Bound)
        requires
            self.is_finite() ==> rank(self.a) <= rank(self.b),
        ensures
            self.is_finite() ==> r == Bound::Value((rank(self.b) - rank(self.a)) as u64),
            !self.is_finite() ==> r == Bound::Infinity,
    {
        self.span()
    }

    /// Duration of a finite time interval.
    pub fn duration_unwrap(&self) -> (r: u64)
        requires
            self.is_finite(),
            rank(self.a) <= rank(self.b),
        ensures
            r == self.spec_length(),
    {
        match self.duration() {
            Bound::Value(v) => v,
            _ => 0,
        }
    }
}


// ---------------------------------------------------------------------------
// Ordered sequences of intervals
// ---------------------------------------------------------------------------

/// Every interval is well formed and each one ends strictly before the next
/// one starts.
pub open spec fn seq_ordered(s: Seq<Interval>) -> bool {
    &&& forall|i: int| 0 <= i < s.len() ==> (#[trigger] s[i]).well_formed()
    &&& forall|i: int, j: int| 0 <= i < j < s.len() ==> rank(#[trigger] s[i].b) < rank(#[trigger] s[j].a)
}

/// Length of the longest prefix of `s` made of intervals ending at or before `v`.
pub open spec fn left_count(s: Seq<Interval>, v: u64) -> nat
    decreases s.len(),
{
    if s.len() == 0 {
        0
    } else if s[0].spec_left_of(v) {
        1 + left_count(s.drop_first(), v)
    } else {
        0
    }
}

/// Length of the longest prefix of `s` made of intervals starting at or before `v`.
pub open spec fn upto_count(s: Seq<Interval>, v: u64) -> nat
    decreases s.len(),
{
    if s.len() == 0 {
        0
    } else if !s[0].spec_right_of(v) {
        1 + upto_count(s.drop_first(), v)
    } else {
        0
    }
}

/// Sum of the lengths of the intervals of `s`.
pub open spec fn sum_len(s: Seq<Interval>) -> int
    decreases s.len(),
{
    if s.len() == 0 {
        0
    } else {
        sum_len(s.drop_last()) + s.last().spec_length()
    }
}

/// The non-empty intersections of the intervals of `s` with `o`, in order.
pub open spec fn isects(s: Seq<Interval>, o: Interval) -> Seq<Interval>
    decreases s.len(),
{
    if s.len() == 0 {
        Seq::empty()
    } else {
        let rest = isects(s.drop_last(), o);
        match s.last().spec_intersection(o) {
            Some(x) => rest.push(x),
            None => rest,
        }
    }
}

/// `i` splits `s` into intervals ending at or before `v` and intervals ending after it.
pub open spec fn is_left_split(s: Seq<Interval>, v: u64, i: int) -> bool {
    &&& 0 <= i <= s.len()
    &&& forall|j: int| 0 <= j < i ==> (#[trigger] s[j]).spec_left_of(v)
    &&& forall|j: int| i <= j < s.len() ==> !(#[trigger] s[j]).spec_left_of(v)
}

/// `i` splits `s` into intervals starting at or before `v` and intervals starting after it.
pub open spec fn is_upto_split(s: Seq<Interval>, v: u64, i: int) -> bool {
    &&& 0 <= i <= s.len()
    &&& forall|j: int| 0 <= j < i ==> !(#[trigger] s[j]).spec_right_of(v)
    &&& forall|j: int| i <= j < s.len() ==> (#[trigger] s[j]).spec_right_of(v)
}

pub proof fn lemma_left_split_is_count(s: Seq<Interval>, v: u64, i: int)
    requires
        is_left_split(s, v, i),
    ensures
        i == left_count(s, v),
    decreases s.len(),
{
    if s.len() > 0 && i > 0 {
        let t = s.drop_first();
        assert forall|j: int| 0 <= j < i - 1 implies (#[trigger] t[j]).spec_left_of(v) by {
            assert(t[j] == s[j + 1]);
        }
        assert forall|j: int| i - 1 <= j < t.len() implies !(#[trigger] t[j]).spec_left_of(v) by {
            assert(t[j] == s[j + 1]);
        }
        lemma_left_split_is_count(t, v, i - 1);
    }
}

pub proof fn lemma_upto_split_is_count(s: Seq<Interval>, v: u64, i: int)
    requires
        is_upto_split(s, v, i),
    ensures
        i == upto_count(s, v),
    decreases s.len(),
{
    if s.len() > 0 && i > 0 {
        let t = s.drop_first();
        assert forall|j: int| 0 <= j < i - 1 implies !(#[trigger] t[j]).spec_right_of(v) by {
            assert(t[j] == s[j + 1]);
        }
        assert forall|j: int| i - 1 <= j < t.len() implies (#[trigger] t[j]).spec_right_of(v) by {
            assert(t[j] == s[j + 1]);
        }
        lemma_upto_split_is_count(t, v, i - 1);
    }
}

/// In an ordered sequence, the intervals ending at or before `v` form a prefix.
pub proof fn lemma_left_count_splits(s: Seq<Interval>, v: u64)
    requires
        seq_ordered(s),
    ensures
        is_left_split(s, v, left_count(s, v) as int),
    decreases s.len(),
{
    if s.len() > 0 {
        let t = s.drop_first();
        assert(seq_ordered(t)) by {
            assert forall|i: int| 0 <= i < t.len() implies (#[trigger] t[i]).well_formed() by {
                assert(t[i] == s[i + 1]);
            }
            assert forall|i: int, j: int| 0 <= i < j < t.len() implies rank(#[trigger] t[i].b) < rank(
                #[trigger] t[j].a,
            ) by {
                assert(t[i] == s[i + 1]);
                assert(t[j] == s[j + 1]);
            }
        }
        lemma_left_count_splits(t, v);
        if s[0].spec_left_of(v) {
            assert forall|j: int| 0 <= j < left_count(s, v) implies (#[trigger] s[j]).spec_left_of(v) by {
                if j > 0 {
                    assert(s[j] == t[j - 1]);
                }
            }
            assert forall|j: int| left_count(s, v) <= j < s.len() implies !(#[trigger] s[j]).spec_left_of(v) by {
                assert(s[j] == t[j - 1]);
            }
        } else {
            assert forall|j: int| 0 <= j < s.len() implies !(#[trigger] s[j]).spec_left_of(v) by {
                if j > 0 {
                    assert(rank(s[0].b) < rank(s[j].a));
                }
            }
        }
    }
}

/// In an ordered sequence, the intervals starting at or before `v` form a prefix.
pub proof fn lemma_upto_count_splits(s: Seq<Interval>, v: u64)
    requires
        seq_ordered(s),
    ensures
        is_upto_split(s, v, upto_count(s, v) as int),
    decreases s.len(),
{
    if s.len() > 0 {
        let t = s.drop_first();
        assert(seq_ordered(t)) by {
            assert forall|i: int| 0 <= i < t.len() implies (#[trigger] t[i]).well_formed() by {
                assert(t[i] == s[i + 1]);
            }
            assert forall|i: int, j: int| 0 <= i < j < t.len() implies rank(#[trigger] t[i].b) < rank(
                #[trigger] t[j].a,
            ) by {
                assert(t[i] == s[i + 1]);
                assert(t[j] == s[j + 1]);
            }
        }
        lemma_upto_count_splits(t, v);
        if !s[0].spec_right_of(v) {
            assert forall|j: int| 0 <= j < upto_count(s, v) implies !(#[trigger] s[j]).spec_right_of(v) by {
                if j > 0 {
                    assert(s[j] == t[j - 1]);
                }
            }
            assert forall|j: int| upto_count(s, v) <= j < s.len() implies (#[trigger] s[j]).spec_right_of(v) by {
                assert(s[j] == t[j - 1]);
            }
        } else {
            assert forall|j: int| 0 <= j < s.len() implies (#[trigger] s[j]).spec_right_of(v) by {
                if j > 0 {
                    assert(rank(s[0].b) < rank(s[j].a));
                }
            }
        }
    }
}

/// Binary search of `value` in an ordered slice of intervals, starting from
/// an optional hint. Returns an index `p` such that every interval before
/// `p` ends at or before `value` and every interval after `p` starts after it.
pub fn interval_binary_search(seq: &[Interval], value: u64, hint: &Option<usize>) -> (p: usize)
    requires
        seq_ordered(seq@),
    ensures
        seq@.len() > 0 ==> {
            &&& p < seq@.len()
            &&& forall|i: int| 0 <= i < p ==> (#[trigger] seq@[i]).spec_left_of(value)
            &&& forall|i: int| p < i < seq@.len() ==> (#[trigger] seq@[i]).spec_right_of(value)
        },
{
    let ghost s = seq@;
    let mut l: usize = 0;
    let mut r: usize = seq.len();
    let mut p: usize = 0;

    if let Some(h) = hint {
        p = *h;

        if p < seq.len() {
            if seq[p].contains(&value) {
                proof {
                    assert forall|i: int| 0 <= i < p implies (#[trigger] s[i]).spec_left_of(value) by {
                        assert(rank(s[i].b) < rank(s[p as int].a));
                    }
                    assert forall|i: int| p < i < s.len() implies (#[trigger] s[i]).spec_right_of(value) by {
                        assert(rank(s[p as int].b) < rank(s[i].a));
                    }
                }
                return p;
            }

            if seq[p].is_left_of(&value) {
                proof {
                    assert forall|i: int| 0 <= i < p implies (#[trigger] s[i]).spec_left_of(value) by {
                        assert(rank(s[i].b) < rank(s[p as int].a));
                    }
                }
                l = p + 1;
            } else {
                proof {
                    assert forall|i: int| p < i < s.len() implies (#[trigger] s[i]).spec_right_of(value) by {
                        assert(rank(s[p as int].b) < rank(s[i].a));
                    }
                }
                r = p;
            }
        }
    }

    while l < r
        invariant
            s == seq@,
            seq_ordered(s),
            0 <= l <= r <= s.len(),
            forall|i: int| 0 <= i < l ==> (#[trigger] s[i]).spec_left_of(value),
            forall|i: int| r <= i < s.len() ==> (#[trigger] s[i]).spec_right_of(value),
            l < r || s.len() == 0 || (p < s.len() && ((p + 1 == l && s[p as int].spec_left_of(value)) || (
            p == r && s[p as int].spec_right_of(value)))),
        decreases r - l,
    {
        p = l + (r - l) / 2;

        if seq[p].contains(&value) {
            proof {
                assert forall|i: int| 0 <= i < p implies (#[trigger] s[i]).spec_left_of(value) by {
                    if i >= l {
                        assert(rank(s[i].b) < rank(s[p as int].a));
                    }
                }
                assert forall|i: int| p < i < s.len() implies (#[trigger] s[i]).spec_right_of(value) by {
                    assert(rank(s[p as int].b) < rank(s[i].a));
                }
            }
            return p;
        }

        if seq[p].is_left_of(&value) {
            proof {
                assert forall|i: int| 0 <= i < p + 1 implies (#[trigger] s[i]).spec_left_of(value) by {
                    if l <= i < p {
                        assert(rank(s[i].b) < rank(s[p as int].a));
                    }
                }
            }
            l = p + 1;
        } else {
            proof {
                assert forall|i: int| p <= i < s.len() implies (#[trigger] s[i]).spec_right_of(value) by {
                    if p < i < r {
                        assert(rank(s[p as int].b) < rank(s[i].a));
                    }
                }
            }
            r = p;
        }
    }

    p
}

/// Index of the first interval of `seq` that ends after `value`. Returns
/// `None` if `seq` is empty or if its last interval ends before `value`.
pub fn do_search_lower_bound(seq: &[Interval], value: u64, hint: &Option<usize>) -> (r: Option<
    usize,
>)
    requires
        seq_ordered(seq@),
    ensures
        r is None <==> (seq@.len() == 0 || rank(seq@.last().b) < value),
        r matches Some(i) ==> i == left_count(seq@, value),
{
    if seq.len() == 0 || bound_lt(seq[seq.len() - 1].upper_bound(), Bound::Value(value)) {
        return None;
    }

    let mut p = interval_binary_search(seq, value, hint);

    if seq[p].is_left_of(&value) {
        p += 1
    }

    proof {
        assert(is_left_split(seq@, value, p as int));
        lemma_left_split_is_count(seq@, value, p as int);
    }

    Some(p)
}

/// Index of the last interval of `seq` that starts at or before `value`.
/// Returns `None` if `seq` is empty or if its first interval starts after
/// `value`.
pub fn do_search_upper_bound(seq: &[Interval], value: u64) -> (r: Option<usize>)
    requires
        seq_ordered(seq@),
    ensures
        r is None <==> (seq@.len() == 0 || rank(seq@[0].a) > value),
        r matches Some(i) ==> i + 1 == upto_count(seq@, value),
{
    if seq.len() == 0 || bound_lt(Bound::Value(value), seq[0].lower_bound()) {
        return None;
    }

    let mut p = interval_binary_search(seq, value, &None);

    if seq[p].is_right_of(&value) {
        p -= 1;
    }

    proof {
        assert(is_upto_split(seq@, value, p + 1));
        lemma_upto_split_is_count(seq@, value, p + 1);
    }

    Some(p)
}


/// Restricting `isects` to a window is harmless when every interval outside
/// the window has an empty intersection with `o`.
pub proof fn lemma_isects_window(s: Seq<Interval>, o: Interval, i: int, j: int)
    requires
        0 <= i <= j <= s.len(),
        forall|k: int| 0 <= k < i ==> (#[trigger] s[k]).spec_intersection(o) is None,
        forall|k: int| j <= k < s.len() ==> (#[trigger] s[k]).spec_intersection(o) is None,
    ensures
        isects(s, o) == isects(s.subrange(i, j), o),
{
    lemma_isects_prefix(s, o, i, j, s.len() as int);
    assert(s.take(s.len() as int) == s);
}

proof fn lemma_isects_prefix(s: Seq<Interval>, o: Interval, i: int, j: int, m: int)
    requires
        0 <= i <= j <= s.len(),
        0 <= m <= s.len(),
        forall|k: int| 0 <= k < i ==> (#[trigger] s[k]).spec_intersection(o) is None,
        forall|k: int| j <= k < s.len() ==> (#[trigger] s[k]).spec_intersection(o) is None,
    ensures
        isects(s.take(m), o) == (if m <= i {
            Seq::empty()
        } else if m <= j {
            isects(s.subrange(i, m), o)
        } else {
            isects(s.subrange(i, j), o)
        }),
    decreases m,
{
    if m > 0 {
        lemma_isects_prefix(s, o, i, j, m - 1);
        let t = s.take(m);
        assert(t.drop_last() == s.take(m - 1));
        assert(t.last() == s[m - 1]);
        assert(isects(t, o) == (match s[m - 1].spec_intersection(o) {
            Some(x) => isects(s.take(m - 1), o).push(x),
            None => isects(s.take(m - 1), o),
        }));
        if i < m <= j {
            let u = s.subrange(i, m);
            assert(u.drop_last() == s.subrange(i, m - 1));
            assert(u.last() == s[m - 1]);
            assert(isects(u, o) == (match s[m - 1].spec_intersection(o) {
                Some(x) => isects(s.subrange(i, m - 1), o).push(x),
                None => isects(s.subrange(i, m - 1), o),
            }));
            if m - 1 == i {
                assert(s.subrange(i, m - 1).len() == 0);
                assert(isects(s.subrange(i, m - 1), o) == Seq::<Interval>::empty());
            }
        } else if m > j {
            assert(s[m - 1].spec_intersection(o) is None);
            if m - 1 <= i {
                assert(s.subrange(i, j).len() == 0);
                assert(isects(s.subrange(i, j), o) == Seq::<Interval>::empty());
            }
        } else {
            assert(s[m - 1].spec_intersection(o) is None);
        }
    } else {
        assert(s.take(0).len() == 0);
        assert(isects(s.take(0), o) == Seq::<Interval>::empty());
    }
}

pub proof fn lemma_sum_len_bound(s: Seq<Interval>, m: int)
    requires
        seq_ordered(s),
        1 <= m <= s.len(),
        forall|i: int| 0 <= i < m ==> (#[trigger] s[i]).is_finite(),
    ensures
        0 <= sum_len(s.take(m)) <= rank(s[m - 1].b) - rank(s[0].a),
    decreases m,
{
    assert(s.take(m).drop_last() == s.take(m - 1));
    assert(s.take(m).last() == s[m - 1]);
    assert(s[m - 1].well_formed());
    assert(sum_len(s.take(m)) == sum_len(s.take(m - 1)) + s[m - 1].spec_length());
    if m > 1 {
        lemma_sum_len_bound(s, m - 1);
        assert(rank(s[m - 2].b) < rank(s[m - 1].a));
    } else {
        assert(s.take(0).len() == 0);
        assert(sum_len(s.take(0)) == 0);
    }
}

/// Replaces `i` by its intersection with `o` when they overlap.
pub open spec fn clip(i: Interval, o: Interval) -> Interval {
    if i.spec_disjoint(o) {
        i
    } else {
        Interval { a: bound_max(i.a, o.a), b: bound_min(i.b, o.b) }
    }
}

pub open spec fn clip_last(s: Seq<Interval>, o: Interval) -> Seq<Interval> {
    if s.len() == 0 {
        s
    } else {
        s.update(s.len() - 1, clip(s.last(), o))
    }
}

pub open spec fn clip_first(s: Seq<Interval>, o: Interval) -> Seq<Interval> {
    if s.len() == 0 {
        s
    } else {
        s.update(0, clip(s[0], o))
    }
}

/// Drops the intervals ending at or before the lower bound `lo`.
pub open spec fn trim_left_spec(s: Seq<Interval>, lo: Bound) -> Seq<Interval> {
    match lo {
        Bound::Value(l) => s.skip(left_count(s, l) as int),
        _ => s,
    }
}

/// Keeps the intervals starting at or before the upper bound `hi`: none
/// when the first one already starts after it.
pub open spec fn trim_right_spec(s: Seq<Interval>, hi: Bound) -> Seq<Interval> {
    match hi {
        Bound::Value(h) => s.take(upto_count(s, h) as int),
        _ => s,
    }
}

/// What `IntervalSeq::intersection_inplace` makes of `s`.
pub open spec fn inplace_intersection(s: Seq<Interval>, o: Interval) -> Seq<Interval> {
    clip_first(clip_last(trim_right_spec(trim_left_spec(s, o.a), o.b), o), o)
}

pub open spec fn lower_cache_entry_ok(s: Seq<Interval>, k: u64, i: int) -> bool {
    &&& s.len() > 0
    &&& rank(s.last().b) >= k
    &&& i == left_count(s, k)
}

pub open spec fn upper_cache_entry_ok(s: Seq<Interval>, k: u64, i: int) -> bool {
    &&& s.len() > 0
    &&& rank(s[0].a) <= k
    &&& i + 1 == upto_count(s, k)
}

/// An ordered sequence of intervals.
pub struct IntervalSeq {
    lower_bound_hint: Option<usize>,
    lower_bound_cache: BTreeMap<u64, usize>,
    upper_bound_cache: BTreeMap<u64, usize>,
    buff: Vec<Interval>,
}

impl View for IntervalSeq {
    type V = Seq<Interval>;

    closed spec fn view(&self) -> Seq<Interval> {
        self.buff@
    }
}

impl IntervalSeq {
    spec fn lower_cache_ok(&self) -> bool {
        forall|k: u64| #[trigger]
            self.lower_bound_cache@.contains_key(k) ==> lower_cache_entry_ok(
                self.buff@,
                k,
                self.lower_bound_cache@[k] as int,
            )
    }

    spec fn upper_cache_ok(&self) -> bool {
        forall|k: u64| #[trigger]
            self.upper_bound_cache@.contains_key(k) ==> upper_cache_entry_ok(
                self.buff@,
                k,
                self.upper_bound_cache@[k] as int,
            )
    }

    /// The intervals are ordered and the search caches agree with them.
    pub closed spec fn wf(&self) -> bool {
        &&& seq_ordered(self.buff@)
        &&& self.lower_cache_ok()
        &&& self.upper_bound_cache@ == Map::<u64, usize>::empty()
    }

    /// The intervals of a well-formed sequence are ordered.
    pub proof fn lemma_ordered(&self)
        requires
            self.wf(),
        ensures
            seq_ordered(self@),
    {
    }

    pub fn new() -> (r: Self)
        ensures
            r.wf(),
            r@ == Seq::<Interval>::empty(),
    {
        Self {
            lower_bound_hint: None,
            lower_bound_cache: BTreeMap::new(),
            upper_bound_cache: BTreeMap::new(),
            buff: Vec::new(),
        }
    }

    fn clear_cache(&mut self)
        requires
            seq_ordered(old(self).buff@),
        ensures
            final(self).wf(),
            final(self).buff@ == old(self).buff@,
            final(self).lower_bound_cache@ == Map::<u64, usize>::empty(),
            final(self).upper_bound_cache@ == Map::<u64, usize>::empty(),
    {
        self.lower_bound_hint = Some(0);
        self.lower_bound_cache.clear();
        self.upper_bound_cache.clear();
    }

    /// Returns a reference on the last interval in the sequence.
    pub fn last(&self) -> (r: Option<&Interval>)
        ensures
            r is None <==> self@.len() == 0,
            r matches Some(x) ==> *x == self@.last(),
    {
        let n = self.buff.len();
        if n == 0 {
            None
        } else {
            Some(&self.buff[n - 1])
        }
    }

    /// The last interval of the sequence, for update. The search caches are
    /// emptied first, so that the sequence is well formed again as soon as
    /// its intervals are ordered.
    pub fn last_mut(&mut self) -> (r: Option<&mut Interval>)
        ensures
            old(self)@.len() == 0 ==> r is None && final(self)@ == old(self)@,
            old(self)@.len() > 0 ==> (r matches Some(x) && *x == old(self)@.last() && final(self)@ == old(
                self,
            )@.update(old(self)@.len() - 1, *final(x))),
            seq_ordered(final(self)@) ==> final(self).wf(),
    {
        self.lower_bound_cache.clear();
        self.upper_bound_cache.clear();
        let n = self.buff.len();
        if n == 0 {
            None
        } else {
            Some(&mut self.buff[n - 1])
        }
    }

    /// Returns a reference on the first interval in the sequence.
    pub fn first(&self) -> (r: Option<&Interval>)
        ensures
            r is None <==> self@.len() == 0,
            r matches Some(x) ==> *x == self@[0],
    {
        if self.buff.len() == 0 {
            None
        } else {
            Some(&self.buff[0])
        }
    }

    /// Adds an interval at the end of the sequence. The last interval, if
    /// any, must end at a value, and the new one start after it. Any
    /// interval is taken, even one whose bounds are reversed; only a
    /// well-formed one keeps a well-formed sequence so.
    pub fn push(&mut self, interval: Interval)
        requires
            old(self)@.len() > 0 ==> (old(self)@.last().b matches Bound::Value(v) && rank(interval.a) > v),
        ensures
            final(self)@ == old(self)@.push(interval),
            old(self).wf() && interval.well_formed() ==> final(self).wf(),
    {
        let ghost s = self.buff@;
        self.buff.push(interval);
        proof {
            if old(self).wf() && interval.well_formed() {
                let t = self.buff@;
                assert forall|i: int, j: int| 0 <= i < j < t.len() implies rank(#[trigger] t[i].b) < rank(
                    #[trigger] t[j].a,
                ) by {
                    if j == s.len() && i < s.len() - 1 {
                        assert(rank(s[i].b) < rank(s[s.len() - 1].a));
                    }
                }
                assert forall|k: u64| #[trigger]
                    self.lower_bound_cache@.contains_key(k) implies lower_cache_entry_ok(
                    t,
                    k,
                    self.lower_bound_cache@[k] as int,
                ) by {
                    let i = self.lower_bound_cache@[k] as int;
                    lemma_left_count_splits(s, k);
                    assert(is_left_split(t, k, i));
                    lemma_left_split_is_count(t, k, i);
                }
            }
        }
    }

    /// Removes the last interval of the sequence. The lower-bound cache is
    /// emptied, since its entries may point past the new end.
    pub fn pop(&mut self) -> (r: Option<Interval>)
        ensures
            old(self).wf() ==> final(self).wf(),
            old(self)@.len() == 0 ==> r is None && final(self)@ == old(self)@,
            old(self)@.len() > 0 ==> r == Some(old(self)@.last()) && final(self)@ == old(
                self,
            )@.drop_last(),
    {
        let r = self.buff.pop();
        self.lower_bound_cache.clear();
        r
    }

    fn search_lower_bound(&mut self, value: u64) -> (r: Option<usize>)
        requires
            seq_ordered(old(self).buff@),
            old(self).lower_cache_ok(),
        ensures
            final(self).buff@ == old(self).buff@,
            final(self).lower_cache_ok(),
            final(self).upper_bound_cache@ == old(self).upper_bound_cache@,
            r is None <==> (old(self)@.len() == 0 || rank(old(self)@.last().b) < value),
            r matches Some(i) ==> i == left_count(old(self)@, value),
    {
        if let Some(lower_bound) = self.lower_bound_cache.get(&value) {
            return Some(*lower_bound);
        }

        if let Some(lower_bound) = do_search_lower_bound(
            self.buff.as_slice(),
            value,
            &self.lower_bound_hint,
        ) {
            self.lower_bound_cache.insert(value, lower_bound);
            self.lower_bound_hint = Some(lower_bound);
            return Some(lower_bound);
        }

        None
    }

    fn search_upper_bound(&mut self, value: u64) -> (r: Option<usize>)
        requires
            seq_ordered(old(self).buff@),
            old(self).upper_cache_ok(),
        ensures
            final(self).buff@ == old(self).buff@,
            final(self).upper_cache_ok(),
            r is None <==> (old(self)@.len() == 0 || rank(old(self)@[0].a) > value),
            r matches Some(i) ==> i + 1 == upto_count(old(self)@, value),
    {
        if let Some(upper_bound) = self.upper_bound_cache.get(&value) {
            return Some(*upper_bound);
        }

        if let Some(upper_bound) = do_search_upper_bound(self.buff.as_slice(), value) {
            self.upper_bound_cache.insert(value, upper_bound);
            return Some(upper_bound);
        }

        None
    }

    fn trim_left(&mut self, value: u64)
        requires
            seq_ordered(old(self).buff@),
            old(self).lower_cache_ok(),
        ensures
            seq_ordered(final(self).buff@),
            final(self)@ == old(self)@.skip(left_count(old(self)@, value) as int),
            final(self).upper_bound_cache@ == old(self).upper_bound_cache@,
    {
        let ghost s = self.buff@;
        proof {
            lemma_left_count_splits(s, value);
        }
        if let Some(l) = self.search_lower_bound(value) {
            let rest = self.buff.split_off(l);
            self.buff = rest;
        } else {
            self.buff.clear();
            assert(s.skip(s.len() as int) == Seq::<Interval>::empty());
        }
        proof {
            lemma_ordered_subrange(s, left_count(s, value) as int, s.len() as int);
        }
    }

    fn trim_right(&mut self, value: u64)
        requires
            seq_ordered(old(self).buff@),
            old(self).upper_cache_ok(),
        ensures
            seq_ordered(final(self).buff@),
            final(self)@ == old(self)@.take(upto_count(old(self)@, value) as int),
    {
        let ghost s = self.buff@;
        proof {
            lemma_upto_count_splits(s, value);
        }
        let n = self.buff.len();
        if let Some(r) = self.search_upper_bound(value) {
            assert(r + 1 <= n);
            self.buff.truncate(r + 1);
            proof {
                lemma_ordered_subrange(s, 0, r + 1);
            }
        } else {
            self.buff.clear();
            proof {
                assert(s.take(0) =~= Seq::<Interval>::empty());
            }
        }
    }

    /// Removes the intervals lying before the lower bound of `other` and
    /// those starting after its upper bound.
    fn remove_disjoints(&mut self, other: &Interval)
        requires
            old(self).wf(),
            other.a != Bound::Infinity,
            other.b != Bound::MinusInfinity,
        ensures
            seq_ordered(final(self).buff@),
            final(self)@ == trim_right_spec(trim_left_spec(old(self)@, other.a), other.b),
    {
        match other.lower_bound() {
            Bound::Value(l) => self.trim_left(l),
            _ => {},
        }

        match other.upper_bound() {
            Bound::Value(r) => self.trim_right(r),
            _ => {},
        }
    }

    /// Updates `self` with its intersection with `other`.
    pub fn intersection_inplace(&mut self, other: &Interval)
        requires
            old(self).wf(),
            other.well_formed(),
        ensures
            final(self).wf(),
            final(self)@ == inplace_intersection(old(self)@, *other),
    {
        self.remove_disjoints(other);
        self.clear_cache();

        let ghost t = self.buff@;
        let n = self.buff.len();
        if n > 0 {
            let mut v = self.buff[n - 1];
            v.intersect_inplace_if_overlapping(other);
            self.buff.set(n - 1, v);
            proof {
                lemma_clip_keeps_order(t, *other, n - 1);
            }
        }

        let ghost u = self.buff@;
        if n > 0 {
            let mut v = self.buff[0];
            v.intersect_inplace_if_overlapping(other);
            self.buff.set(0, v);
            proof {
                lemma_clip_keeps_order(u, *other, 0);
            }
        }
    }

    /// Returns the non-empty intersections of the intervals of `self` with
    /// `other`, in order.
    pub fn intersection(&mut self, other: Interval) -> (r: Vec<Interval>)
        requires
            old(self).wf(),
            other.a != Bound::Infinity,
            other.b != Bound::MinusInfinity,
        ensures
            final(self).wf(),
            final(self)@ == old(self)@,
            r@ == isects(old(self)@, other),
    {
        let ghost s = self.buff@;
        let n = self.buff.len();
        let start: usize = match other.lower_bound() {
            Bound::Value(v) => {
                proof {
                    lemma_left_count_splits(s, v);
                }
                match self.search_lower_bound(v) {
                    Some(i) => i,
                    None => n,
                }
            },
            _ => 0,
        };

        let end: usize = match other.upper_bound() {
            Bound::Value(v) => {
                let sub = vstd::slice::slice_subrange(self.buff.as_slice(), start, n);
                proof {
                    lemma_ordered_subrange(s, start as int, n as int);
                    lemma_upto_count_splits(sub@, v);
                }
                match do_search_upper_bound(sub, v) {
                    Some(i) => start + i + 1,
                    None => n,
                }
            },
            _ => n,
        };

        proof {
            assert forall|k: int| 0 <= k < start implies (#[trigger] s[k]).spec_intersection(
                other,
            ) is None by {
                if let Bound::Value(v) = other.a {
                    assert(s[k].spec_left_of(v));
                }
            }
            assert forall|k: int| end <= k < s.len() implies (#[trigger] s[k]).spec_intersection(
                other,
            ) is None by {
                if let Bound::Value(v) = other.b {
                    let sub = s.subrange(start as int, n as int);
                    assert(sub[k - start] == s[k]);
                }
            }
            lemma_isects_window(s, other, start as int, end as int);
        }

        let mut ret: Vec<Interval> = Vec::new();
        let mut k: usize = start;
        while k < end
            invariant
                s == self.buff@,
                start <= k <= end <= s.len(),
                ret@ == isects(s.subrange(start as int, k as int), other),
            decreases end - k,
        {
            let x = self.buff[k].intersection(&other);
            proof {
                let u = s.subrange(start as int, k + 1);
                assert(u.drop_last() == s.subrange(start as int, k as int));
                assert(u.last() == s[k as int]);
            }
            if let Some(i) = x {
                ret.push(i);
            }
            k += 1;
        }
        ret
    }

    /// The intervals contained in the sequence.
    pub fn iter(&self) -> (r: &[Interval])
        ensures
            r@ == self@,
    {
        self.buff.as_slice()
    }

    pub fn len(&self) -> (r: usize)
        ensures
            r == self@.len(),
    {
        self.buff.len()
    }

    /// Number of intervals ending at or before `until`.
    fn search_until_index(&self, until: u64) -> (r: usize)
        requires
            seq_ordered(self@),
        ensures
            r == left_count(self@, until),
    {
        let ghost s = self.buff@;
        proof {
            lemma_left_count_splits(s, until);
        }
        let mut l: usize = 0;
        let mut r: usize = self.buff.len();
        while l < r
            invariant
                s == self.buff@,
                seq_ordered(s),
                is_left_split(s, until, left_count(s, until) as int),
                0 <= l <= r <= s.len(),
                l <= left_count(s, until) <= r,
            decreases r - l,
        {
            let m = l + (r - l) / 2;
            assert(s[m as int].well_formed());
            if self.buff[m].is_left_of(&until) {
                l = m + 1;
            } else {
                r = m;
            }
        }
        l
    }

    /// `None` if the sequence is empty or starts after `until`; otherwise
    /// the number of intervals ending at or before `until`.
    fn until_index(&self, until: u64) -> (r: Option<usize>)
        requires
            seq_ordered(self@),
        ensures
            r is None <==> (self@.len() == 0 || self@[0].spec_right_of(until)),
            r matches Some(i) ==> i == left_count(self@, until),
    {
        let n = self.buff.len();
        if n == 0 {
            return None;
        }
        proof {
            lemma_left_count_splits(self@, until);
        }
        if self.buff[n - 1].is_left_of(&until) {
            return Some(n);
        }
        if self.buff[0].is_right_of(&until) {
            return None;
        }
        Some(self.search_until_index(until))
    }

    /// Removes all intervals left of `until`. The removed intervals are
    /// compressed in a pair `(A, c)`, in which `A` is the extent of all the
    /// removed intervals and `c` their total length. An interval containing
    /// `until` is cut at `until`; its first part is compressed.
    pub fn compress_until(&mut self, until: u64) -> (r: Option<(TimeInterval, u64)>)
        requires
            old(self).wf(),
            old(self)@.len() > 0 ==> old(self)@[0].a is Value,
        ensures
            final(self).wf(),
            ({
                let s = old(self)@;
                let k = left_count(s, until) as int;
                &&& k == 0 ==> r is None && final(self)@ == s
                &&& k > 0 ==> (r matches Some(p) && p.0.a == s[0].a && if k < s.len() && s[k].spec_contains(until) {
                    &&& p.0.b == Bound::Value(until)
                    &&& p.1 == sum_len(s.take(k)) + until - rank(s[k].a)
                    &&& final(self)@ == s.skip(k).update(0, Interval { a: Bound::Value(until), b: s[k].b })
                } else {
                    &&& p.0.b == s[k - 1].b
                    &&& p.1 == sum_len(s.take(k))
                    &&& final(self)@ == s.skip(k)
                })
            }),
    {
        let ghost s = self.buff@;
        proof {
            lemma_left_count_splits(s, until);
        }
        let idx = match self.until_index(until) {
            Some(i) => i,
            None => return None,
        };

        self.clear_cache();

        if idx == 0 {
            return None;
        }

        let lower = self.buff[0].lower_bound();
        let mut upper = self.buff[idx - 1].upper_bound();

        proof {
            assert forall|i: int| 0 <= i < idx implies (#[trigger] s[i]).is_finite() by {
                if i > 0 {
                    assert(rank(s[i - 1].b) < rank(s[i].a));
                }
            }
            lemma_sum_len_bound(s, idx as int);
        }

        let mut cov: u64 = 0;
        let mut j: usize = 0;
        while j < idx
            invariant
                s == self.buff@,
                seq_ordered(s),
                0 < idx <= s.len(),
                0 <= j <= idx,
                forall|i: int| 0 <= i < idx ==> (#[trigger] s[i]).is_finite(),
                sum_len(s.take(idx as int)) <= rank(s[idx - 1].b) - rank(s[0].a),
                cov == sum_len(s.take(j as int)),
            decreases idx - j,
        {
            proof {
                assert(s.take(j + 1).drop_last() == s.take(j as int));
                assert(s.take(j + 1).last() == s[j as int]);
                assert(s[j as int].well_formed());
                lemma_sum_len_bound(s, j + 1);
                if j + 1 < idx {
                    assert(rank(s[j as int].b) < rank(s[idx - 1].a));
                    assert(s[idx - 1].well_formed());
                }
            }
            cov = cov + self.buff[j].duration_unwrap();
            j += 1;
        }

        let rest = self.buff.split_off(idx);
        self.buff = rest;
        proof {
            lemma_ordered_subrange(s, idx as int, s.len() as int);
        }

        let n = self.buff.len();
        if n > 0 {
            let mut first = self.buff[0];
            if first.contains(&until) {
                proof {
                    assert(rank(s[idx - 1].b) < rank(s[idx as int].a));
                }
                upper = Bound::Value(until);
                let fl = match first.lower_bound().value() {
                    Some(v) => v,
                    None => 0,
                };
                cov += until - fl;
                first.set_lower_bound(until);
                let ghost t = self.buff@;
                self.buff.set(0, first);
                proof {
                    assert forall|i: int, j: int| 0 <= i < j < self.buff@.len() implies rank(
                        #[trigger] self.buff@[i].b,
                    ) < rank(#[trigger] self.buff@[j].a) by {
                        assert(rank(t[i].b) < rank(t[j].a));
                    }
                    assert forall|i: int| 0 <= i < self.buff@.len() implies (
                    #[trigger] self.buff@[i]).well_formed() by {
                        assert(t[i].well_formed());
                    }
                }
            }
        }

        Some((Interval::new(lower, upper), cov))
    }
}

impl Default for IntervalSeq {
    fn default() -> (r: Self)
        ensures
            r.wf(),
            r@ == Seq::<Interval>::empty(),
    {
        Self::new()
    }
}

/// A contiguous part of an ordered sequence is ordered.
pub proof fn lemma_ordered_subrange(s: Seq<Interval>, i: int, j: int)
    requires
        seq_ordered(s),
        0 <= i <= j <= s.len(),
    ensures
        seq_ordered(s.subrange(i, j)),
        seq_ordered(s.skip(i)),
        seq_ordered(s.take(j)),
{
    let t = s.subrange(i, j);
    assert forall|x: int, y: int| 0 <= x < y < t.len() implies rank(#[trigger] t[x].b) < rank(
        #[trigger] t[y].a,
    ) by {
        assert(t[x] == s[x + i]);
        assert(t[y] == s[y + i]);
    }
    let u = s.skip(i);
    assert forall|x: int, y: int| 0 <= x < y < u.len() implies rank(#[trigger] u[x].b) < rank(
        #[trigger] u[y].a,
    ) by {
        assert(u[x] == s[x + i]);
        assert(u[y] == s[y + i]);
    }
    assert forall|x: int| 0 <= x < u.len() implies (#[trigger] u[x]).well_formed() by {
        assert(u[x] == s[x + i]);
    }
    assert forall|x: int| 0 <= x < t.len() implies (#[trigger] t[x]).well_formed() by {
        assert(t[x] == s[x + i]);
    }
}

/// Clipping one interval of an ordered sequence keeps it ordered.
pub proof fn lemma_clip_keeps_order(s: Seq<Interval>, o: Interval, k: int)
    requires
        seq_ordered(s),
        0 <= k < s.len(),
        o.well_formed(),
    ensures
        seq_ordered(s.update(k, clip(s[k], o))),
{
    let t = s.update(k, clip(s[k], o));
    assert forall|x: int, y: int| 0 <= x < y < t.len() implies rank(#[trigger] t[x].b) < rank(
        #[trigger] t[y].a,
    ) by {
        assert(rank(s[x].b) < rank(s[y].a));
    }
    assert forall|x: int| 0 <= x < t.len() implies (#[trigger] t[x]).well_formed() by {
        assert(s[x].well_formed());
    }
}

} // verus!
