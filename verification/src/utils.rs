//! Utility types.

use std::cmp::Ordering;
use vstd::prelude::*;

mod kth_max;

pub use kth_max::KthMaxTracker;

verus! {

/// Kernel thread identifier: the thread id `pid` and its thread-group id `tgid`.
/// Two identifiers are equal when their thread ids are.
#[derive(Debug, Copy, Clone, Default, Eq)]
pub struct ThreadId {
    pub pid: u32,
    pub tgid: u32,
}

impl PartialEq for ThreadId {
    fn eq(&self, other: &Self) -> (r: bool) {
        self.pid == other.pid
    }
}

impl vstd::std_specs::cmp::PartialEqSpecImpl for ThreadId {
    open spec fn obeys_eq_spec() -> bool {
        true
    }

    open spec fn eq_spec(&self, other: &Self) -> bool {
        self.pid == other.pid
    }
}

/// The packed `pid_tgid` word of a thread: `tgid` in the high half, `pid`
/// in the low half.
pub open spec fn spec_pid_tgid(pid: u32, tgid: u32) -> u64 {
    (pid as u64 + (tgid as u64) * 0x1_0000_0000) as u64
}

impl ThreadId {
    pub fn new(pid: u32, tgid: u32) -> (r: Self)
        ensures
            r.pid == pid,
            r.tgid == tgid,
    {
        Self { pid, tgid }
    }

    /// Packs the identifier in a `pid_tgid` word.
    pub fn to_pid_tgid(&self) -> (r: u64)
        ensures
            r == spec_pid_tgid(self.pid, self.tgid),
    {
        let pid = self.pid;
        let tgid = self.tgid;
        let mut ret = pid as u64;
        ret = ret | ((tgid as u64) << 32u64);
        assert(((pid as u64) | ((tgid as u64) << 32u64)) == (pid as u64 + (tgid as u64)
            * 0x1_0000_0000) as u64) by (bit_vector);
        ret
    }

    /// Unpacks a `pid_tgid` word.
    pub fn from_pid_tgid(pid_tgid: u64) -> (r: ThreadId)
        ensures
            r.pid == pid_tgid % 0x1_0000_0000,
            r.tgid == pid_tgid / 0x1_0000_0000,
    {
        let pid = pid_tgid as u32;
        let tgid = pid_tgid >> 32u64;
        assert((pid_tgid as u32) == pid_tgid % 0x1_0000_0000) by (bit_vector);
        assert(pid_tgid >> 32u64 == pid_tgid / 0x1_0000_0000) by (bit_vector);
        ThreadId::new(pid, tgid as u32)
    }
}

impl From<u64> for ThreadId {
    fn from(pid_tgid: u64) -> (r: ThreadId) {
        ThreadId::from_pid_tgid(pid_tgid)
    }
}

impl vstd::std_specs::convert::FromSpecImpl<u64> for ThreadId {
    open spec fn obeys_from_spec() -> bool {
        true
    }

    open spec fn from_spec(pid_tgid: u64) -> ThreadId {
        ThreadId { pid: (pid_tgid % 0x1_0000_0000) as u32, tgid: (pid_tgid / 0x1_0000_0000) as u32 }
    }
}

/// Packing and unpacking are inverse of each other.
pub proof fn lemma_pid_tgid_roundtrip(pid: u32, tgid: u32, w: u64)
    ensures
        spec_pid_tgid(pid, tgid) % 0x1_0000_0000 == pid,
        spec_pid_tgid(pid, tgid) / 0x1_0000_0000 == tgid,
        spec_pid_tgid((w % 0x1_0000_0000) as u32, (w / 0x1_0000_0000) as u32) == w,
{
    assert((pid as u64 + (tgid as u64) * 0x1_0000_0000) as u64 % 0x1_0000_0000 == pid) by (bit_vector);
    assert((pid as u64 + (tgid as u64) * 0x1_0000_0000) as u64 / 0x1_0000_0000 == tgid) by (bit_vector);
    assert((((w % 0x1_0000_0000) as u32) as u64 + (((w / 0x1_0000_0000) as u32) as u64)
        * 0x1_0000_0000) as u64 == w) by (bit_vector);
}

/// Keys of a `Dispatcher`: copyable values compared by equality.
pub trait DispatchKey: Sized + Copy {
    fn same_key(&self, other: &Self) -> (r: bool)
        ensures
            r == (*self == *other),
    ;
}

/// No key occurs twice.
pub open spec fn keys_distinct<K, V>(s: Seq<(K, V)>) -> bool {
    forall|i: int, j: int| 0 <= i < j < s.len() ==> (#[trigger] s[i]).0 != (#[trigger] s[j]).0
}

/// Position of the entry with key `k`, or -1.
pub open spec fn find_key<K, V>(s: Seq<(K, V)>, k: K) -> int
    decreases s.len(),
{
    if s.len() == 0 {
        -1
    } else if s.last().0 == k {
        s.len() - 1
    } else {
        find_key(s.drop_last(), k)
    }
}

pub proof fn lemma_find_key<K, V>(s: Seq<(K, V)>, k: K)
    ensures
        -1 <= find_key(s, k) < s.len(),
        find_key(s, k) >= 0 ==> s[find_key(s, k)].0 == k,
        find_key(s, k) == -1 ==> forall|i: int| 0 <= i < s.len() ==> (#[trigger] s[i]).0 != k,
        keys_distinct(s) ==> forall|i: int| 0 <= i < s.len() && (#[trigger] s[i]).0 == k ==> i == find_key(s, k),
    decreases s.len(),
{
    if s.len() > 0 {
        lemma_find_key(s.drop_last(), k);
        assert forall|i: int| 0 <= i < s.len() - 1 implies s.drop_last()[i] == #[trigger] s[i] by {}
    }
}

/// Associates values to keys, in the order in which the keys first came.
pub struct Dispatcher<K, V> {
    items: Vec<(K, V)>,
}

impl<K: DispatchKey, V> Dispatcher<K, V> {
    /// The entries, oldest key first.
    pub closed spec fn entries(&self) -> Seq<(K, V)> {
        self.items@
    }

    pub closed spec fn wf(&self) -> bool {
        keys_distinct(self.items@)
    }

    pub fn new() -> (r: Self)
        ensures
            r.wf(),
            r.entries() == Seq::<(K, V)>::empty(),
    {
        Self { items: Vec::new() }
    }

    fn index_of(&self, k: &K) -> (r: Option<usize>)
        ensures
            r matches Some(i) ==> i < self.entries().len() && self.entries()[i as int].0 == *k && i
                == find_key(self.entries(), *k),
            r is None ==> find_key(self.entries(), *k) == -1,
    {
        let ghost s = self.items@;
        proof {
            lemma_find_key(s, *k);
        }
        let mut i: usize = self.items.len();
        proof {
            assert(s.take(s.len() as int) == s);
        }
        while i > 0
            invariant
                s == self.items@,
                0 <= i <= s.len(),
                find_key(s, *k) == find_key(s.take(i as int), *k),
            decreases i,
        {
            proof {
                let t = s.take(i as int);
                assert(t.drop_last() == s.take(i - 1));
                assert(t.last() == s[i - 1]);
            }
            if self.items[i - 1].0.same_key(k) {
                return Some(i - 1);
            }
            i -= 1;
        }
        proof {
            assert(s.take(0).len() == 0);
        }
        None
    }

    /// Returns the value of key `k`, inserting the value that `f` makes
    /// when there is none.
    pub fn get_or_new<F: FnOnce() -> V>(&mut self, k: &K, f: F) -> (r: &mut V)
        requires
            old(self).wf(),
            f.requires(()),
        ensures
            final(self).wf(),
            find_key(old(self).entries(), *k) >= 0 ==> {
                let i = find_key(old(self).entries(), *k);
                &&& *r == old(self).entries()[i].1
                &&& final(self).entries() == old(self).entries().update(i, (*k, *final(r)))
            },
            find_key(old(self).entries(), *k) < 0 ==> {
                &&& f.ensures((), *r)
                &&& final(self).entries() == old(self).entries().push((*k, *final(r)))
            },
    {
        proof {
            lemma_find_key(self.items@, *k);
        }
        let i = match self.index_of(k) {
            Some(i) => {
                proof {
                    assert(self.items@[i as int].0 == *k);
                }
                i
            },
            None => {
                let v = f();
                self.items.push((*k, v));
                proof {
                    assert forall|a: int, b: int| 0 <= a < b < self.items@.len() implies (
                    #[trigger] self.items@[a]).0 != (#[trigger] self.items@[b]).0 by {
                        if b == self.items@.len() - 1 {
                            assert(old(self).items@[a].0 != *k);
                        }
                    }
                }
                self.items.len() - 1
            },
        };
        &mut self.items[i].1
    }

    /// Returns the value of key `k`, if any.
    pub fn get(&self, k: &K) -> (r: Option<&V>)
        ensures
            r == (if find_key(self.entries(), *k) >= 0 {
                Some(&self.entries()[find_key(self.entries(), *k)].1)
            } else {
                None::<&V>
            }),
    {
        proof {
            lemma_find_key(self.items@, *k);
        }
        match self.index_of(k) {
            Some(i) => Some(&self.items[i].1),
            None => None,
        }
    }

    /// Returns the value of key `k` for update, if any.
    pub fn get_mut(&mut self, k: &K) -> (r: Option<&mut V>)
        requires
            old(self).wf(),
        ensures
            final(self).wf(),
            find_key(old(self).entries(), *k) < 0 ==> r is None && final(self).entries() == old(
                self,
            ).entries(),
            find_key(old(self).entries(), *k) >= 0 ==> (r matches Some(v) && {
                let i = find_key(old(self).entries(), *k);
                &&& *v == old(self).entries()[i].1
                &&& final(self).entries() == old(self).entries().update(i, (*k, *final(v)))
            }),
    {
        proof {
            lemma_find_key(self.items@, *k);
        }
        match self.index_of(k) {
            Some(i) => Some(&mut self.items[i].1),
            None => None,
        }
    }

    /// Removes key `k` and its value, if any.
    pub fn remove(&mut self, k: &K) -> (r: Option<V>)
        requires
            old(self).wf(),
        ensures
            final(self).wf(),
            find_key(old(self).entries(), *k) < 0 ==> r is None && final(self).entries() == old(
                self,
            ).entries(),
            find_key(old(self).entries(), *k) >= 0 ==> r == Some(
                old(self).entries()[find_key(old(self).entries(), *k)].1,
            ) && final(self).entries() == old(self).entries().remove(
                find_key(old(self).entries(), *k),
            ),
    {
        proof {
            lemma_find_key(self.items@, *k);
        }
        match self.index_of(k) {
            Some(i) => {
                let (_, v) = self.items.remove(i);
                proof {
                    let s = old(self).items@;
                    assert forall|a: int, b: int| 0 <= a < b < self.items@.len() implies (
                    #[trigger] self.items@[a]).0 != (#[trigger] self.items@[b]).0 by {
                        let a2 = if a < i { a } else { a + 1 };
                        let b2 = if b < i { b } else { b + 1 };
                        assert(self.items@[a] == s[a2]);
                        assert(self.items@[b] == s[b2]);
                    }
                }
                Some(v)
            },
            None => None,
        }
    }

    /// Adds key `k`, not present yet, with value `v`.
    pub fn insert_new(&mut self, k: K, v: V)
        requires
            old(self).wf(),
            find_key(old(self).entries(), k) < 0,
        ensures
            final(self).wf(),
            final(self).entries() == old(self).entries().push((k, v)),
    {
        proof {
            lemma_find_key(self.items@, k);
        }
        self.items.push((k, v));
        proof {
            assert forall|a: int, b: int| 0 <= a < b < self.items@.len() implies (
            #[trigger] self.items@[a]).0 != (#[trigger] self.items@[b]).0 by {
                if b == self.items@.len() - 1 {
                    assert(old(self).items@[a].0 != k);
                }
            }
        }
    }

    /// The number of keys.
    pub fn len(&self) -> (r: usize)
        ensures
            r == self.entries().len(),
    {
        self.items.len()
    }

    /// The values, in the order of their keys.
    pub fn values(&self) -> (r: Vec<&V>)
        ensures
            r@.len() == self.entries().len(),
            forall|i: int| 0 <= i < r@.len() ==> *r@[i] == self.entries()[i].1,
    {
        let mut ret: Vec<&V> = Vec::new();
        let mut i: usize = 0;
        while i < self.items.len()
            invariant
                0 <= i <= self.items@.len(),
                ret@.len() == i,
                forall|j: int| 0 <= j < i ==> *ret@[j] == self.items@[j].1,
            decreases self.items@.len() - i,
        {
            ret.push(&self.items[i].1);
            i += 1;
        }
        ret
    }

    /// The value of the `i`-th key, for update.
    pub fn value_at_mut(&mut self, i: usize) -> (r: &mut V)
        requires
            old(self).wf(),
            i < old(self).entries().len(),
        ensures
            final(self).wf(),
            *r == old(self).entries()[i as int].1,
            final(self).entries() == old(self).entries().update(
                i as int,
                (old(self).entries()[i as int].0, *final(r)),
            ),
    {
        &mut self.items[i].1
    }

    /// The keys, oldest first.
    pub fn keys(&self) -> (r: Vec<K>)
        ensures
            r@ == self.entries().map_values(|e: (K, V)| e.0),
    {
        let ghost s = self.items@;
        let mut ret: Vec<K> = Vec::new();
        let mut i: usize = 0;
        while i < self.items.len()
            invariant
                s == self.items@,
                0 <= i <= s.len(),
                ret@ == s.take(i as int).map_values(|e: (K, V)| e.0),
            decreases s.len() - i,
        {
            ret.push(self.items[i].0);
            i += 1;
            proof {
                assert(s.take(i as int).map_values(|e: (K, V)| e.0) =~= s.take(i - 1).map_values(
                    |e: (K, V)| e.0,
                ).push(s[i - 1].0));
            }
        }
        proof {
            assert(s.take(s.len() as int) == s);
        }
        ret
    }

    /// The entries, oldest key first.
    pub fn items(&self) -> (r: &[(K, V)])
        ensures
            r@ == self.entries(),
    {
        self.items.as_slice()
    }

    pub fn is_empty(&self) -> (r: bool)
        ensures
            r == (self.entries().len() == 0),
    {
        self.items.len() == 0
    }
}

impl<K: DispatchKey, V: Default> Dispatcher<K, V> {
    /// Returns the value of key `k`, inserting the default value when there
    /// is none.
    pub fn get_or_default(&mut self, k: &K) -> (r: &mut V)
        requires
            old(self).wf(),
        ensures
            final(self).wf(),
            find_key(old(self).entries(), *k) >= 0 ==> {
                let i = find_key(old(self).entries(), *k);
                &&& *r == old(self).entries()[i].1
                &&& final(self).entries() == old(self).entries().update(i, (*k, *final(r)))
            },
            find_key(old(self).entries(), *k) < 0 ==> {
                &&& call_ensures(V::default, (), *r)
                &&& final(self).entries() == old(self).entries().push((*k, *final(r)))
            },
    {
        self.get_or_new(k, V::default)
    }
}

/// Tracks the largest value seen.
pub struct UpperBoundTracker {
    max_val: Option<u64>,
}

impl UpperBoundTracker {
    pub closed spec fn spec_get(&self) -> Option<u64> {
        self.max_val
    }

    pub fn new() -> (r: Self)
        ensures
            r.spec_get() is None,
    {
        Self { max_val: None }
    }

    /// Records `new` and returns the largest value seen so far.
    pub fn update(&mut self, new: u64) -> (r: u64)
        ensures
            r == match old(self).spec_get() {
                Some(p) => if p >= new {
                    p
                } else {
                    new
                },
                None => new,
            },
            final(self).spec_get() == Some(r),
    {
        let v = match self.max_val {
            Some(prev) => if prev >= new {
                prev
            } else {
                new
            },
            None => new,
        };
        self.max_val = Some(v);
        v
    }

    pub fn get(&self) -> (r: Option<u64>)
        ensures
            r == self.spec_get(),
    {
        self.max_val
    }
}

impl Default for UpperBoundTracker {
    fn default() -> (r: Self)
        ensures
            r.spec_get() is None,
    {
        Self::new()
    }
}

/// Tracks the smallest value seen.
pub struct LowerBoundTracker {
    min_val: Option<u64>,
}

impl LowerBoundTracker {
    pub closed spec fn spec_get(&self) -> Option<u64> {
        self.min_val
    }

    pub fn new() -> (r: Self)
        ensures
            r.spec_get() is None,
    {
        Self { min_val: None }
    }

    /// Records `new` and returns the smallest value seen so far.
    pub fn update(&mut self, new: u64) -> (r: u64)
        ensures
            r == match old(self).spec_get() {
                Some(p) => if p <= new {
                    p
                } else {
                    new
                },
                None => new,
            },
            final(self).spec_get() == Some(r),
    {
        let v = match self.min_val {
            Some(prev) => if prev <= new {
                prev
            } else {
                new
            },
            None => new,
        };
        self.min_val = Some(v);
        v
    }

    pub fn get(&self) -> (r: Option<u64>)
        ensures
            r == self.spec_get(),
    {
        self.min_val
    }
}

impl Default for LowerBoundTracker {
    fn default() -> (r: Self)
        ensures
            r.spec_get() is None,
    {
        Self::new()
    }
}

/// A running average in which each value counts with a weight.
pub struct WeightedMovingAverage {
    average: u64,
    total: u64,
}

impl WeightedMovingAverage {
    pub closed spec fn spec_average(&self) -> u64 {
        self.average
    }

    pub closed spec fn spec_total(&self) -> u64 {
        self.total
    }

    pub fn new() -> (r: Self)
        ensures
            r.spec_average() == 0,
            r.spec_total() == 0,
    {
        Self { average: 0, total: 0 }
    }

    /// Adds `value` with weight `weight`; the average is rounded down.
    pub fn update(&mut self, value: u64, weight: u64)
        requires
            old(self).spec_average() * old(self).spec_total() + value * weight <= u64::MAX,
            0 < old(self).spec_total() + weight <= u64::MAX,
        ensures
            final(self).spec_total() == old(self).spec_total() + weight,
            final(self).spec_average() == (old(self).spec_average() * old(self).spec_total() + value
                * weight) / (old(self).spec_total() + weight) as int,
    {
        proof {
            vstd::arithmetic::mul::lemma_mul_nonnegative(self.average as int, self.total as int);
            vstd::arithmetic::mul::lemma_mul_nonnegative(value as int, weight as int);
        }
        let a = self.average * self.total;
        let b = value * weight;
        self.average = a + b;
        self.total = self.total + weight;
        self.average = self.average / self.total;
    }

    pub fn get_average(&self) -> (r: u64)
        ensures
            r == self.spec_average(),
    {
        self.average
    }

    pub fn get_total(&self) -> (r: u64)
        ensures
            r == self.spec_total(),
    {
        self.total
    }
}

impl Default for WeightedMovingAverage {
    fn default() -> (r: Self)
        ensures
            r.spec_average() == 0,
            r.spec_total() == 0,
    {
        Self::new()
    }
}

/// The last `capacity` values pushed, oldest first.
pub struct RingBuffer<T> {
    capacity: usize,
    buff: Vec<T>,
}

impl<T> RingBuffer<T> {
    pub closed spec fn spec_capacity(&self) -> usize {
        self.capacity
    }

    /// The buffered values, oldest first.
    pub closed spec fn contents(&self) -> Seq<T> {
        self.buff@
    }

    pub closed spec fn wf(&self) -> bool {
        self.buff@.len() <= self.capacity
    }

    pub fn new(capacity: usize) -> (r: Self)
        ensures
            r.wf(),
            r.spec_capacity() == capacity,
            r.contents() == Seq::<T>::empty(),
    {
        Self { capacity, buff: Vec::new() }
    }

    /// Removes and returns the oldest value.
    pub fn pop(&mut self) -> (r: Option<T>)
        requires
            old(self).wf(),
        ensures
            final(self).wf(),
            final(self).spec_capacity() == old(self).spec_capacity(),
            old(self).contents().len() == 0 ==> r is None && final(self).contents() == old(
                self,
            ).contents(),
            old(self).contents().len() > 0 ==> r == Some(old(self).contents()[0])
                && final(self).contents() == old(self).contents().drop_first(),
    {
        if self.buff.len() == 0 {
            return None;
        }
        Some(self.buff.remove(0))
    }

    /// Adds a value; once the buffer is full, the oldest value is removed
    /// and returned.
    pub fn push(&mut self, val: T) -> (r: Option<T>)
        requires
            old(self).wf(),
        ensures
            final(self).wf(),
            final(self).spec_capacity() == old(self).spec_capacity(),
            old(self).contents().len() < old(self).spec_capacity() ==> r is None
                && final(self).contents() == old(self).contents().push(val),
            old(self).contents().len() == old(self).spec_capacity() ==> r == Some(
                old(self).contents().push(val)[0],
            ) && final(self).contents() == old(self).contents().push(val).drop_first(),
    {
        self.buff.push(val);
        if self.buff.len() > self.capacity {
            return Some(self.buff.remove(0));
        }
        None
    }

    /// The number of values the buffer keeps.
    pub fn capacity(&self) -> (r: usize)
        ensures
            r == self.spec_capacity(),
    {
        self.capacity
    }

    /// The buffered values, oldest first.
    pub fn as_slice(&self) -> (r: &[T])
        ensures
            r@ == self.contents(),
    {
        self.buff.as_slice()
    }

    pub fn first(&self) -> (r: Option<&T>)
        ensures
            self.contents().len() == 0 ==> r is None,
            self.contents().len() > 0 ==> r == Some(&self.contents()[0]),
    {
        if self.buff.len() == 0 {
            None
        } else {
            Some(&self.buff[0])
        }
    }

    pub fn last(&self) -> (r: Option<&T>)
        ensures
            self.contents().len() == 0 ==> r is None,
            self.contents().len() > 0 ==> r == Some(&self.contents().last()),
    {
        let n = self.buff.len();
        if n == 0 {
            None
        } else {
            Some(&self.buff[n - 1])
        }
    }
}

/// Merges two sequences by taking, at each step, the first remaining value
/// of the first sequence unless the comparison puts it after the first
/// remaining value of the second one.
pub struct InterleaveBy<F, T> {
    order: F,
    i: Vec<T>,
    j: Vec<T>,
    pos_i: usize,
    pos_j: usize,
}

impl<F, T: Copy> InterleaveBy<F, T> {
    pub closed spec fn rest_i(&self) -> Seq<T> {
        self.i@.skip(self.pos_i as int)
    }

    pub closed spec fn rest_j(&self) -> Seq<T> {
        self.j@.skip(self.pos_j as int)
    }

    pub closed spec fn comparator(&self) -> F {
        self.order
    }

    pub closed spec fn wf(&self) -> bool {
        self.pos_i <= self.i@.len() && self.pos_j <= self.j@.len()
    }

    pub fn new(i: Vec<T>, j: Vec<T>, order: F) -> (r: Self)
        ensures
            r.wf(),
            r.rest_i() == i@,
            r.rest_j() == j@,
            r.comparator() == order,
    {
        let r = Self { order, i, j, pos_i: 0, pos_j: 0 };
        proof {
            assert(r.i@.skip(0) == r.i@);
            assert(r.j@.skip(0) == r.j@);
        }
        r
    }

    /// Returns the next value of the merge, or `None` when both sequences
    /// are exhausted.
    pub fn next_merged(&mut self) -> (r: Option<T>)
        where F: Fn(&T, &T) -> Ordering,
        requires
            old(self).wf(),
            forall|a: &T, b: &T| #[trigger] old(self).comparator().requires((a, b)),
        ensures
            final(self).wf(),
            final(self).comparator() == old(self).comparator(),
            ({
                let ri = old(self).rest_i();
                let rj = old(self).rest_j();
                if ri.len() == 0 && rj.len() == 0 {
                    r is None && final(self).rest_i() == ri && final(self).rest_j() == rj
                } else if ri.len() == 0 {
                    r == Some(rj[0]) && final(self).rest_i() == ri && final(self).rest_j()
                        == rj.drop_first()
                } else if rj.len() == 0 {
                    r == Some(ri[0]) && final(self).rest_i() == ri.drop_first()
                        && final(self).rest_j() == rj
                } else {
                    exists|o: Ordering|
                        #[trigger] old(self).comparator().ensures((&ri[0], &rj[0]), o) && if o
                            == Ordering::Greater {
                            r == Some(rj[0]) && final(self).rest_i() == ri && final(self).rest_j()
                                == rj.drop_first()
                        } else {
                            r == Some(ri[0]) && final(self).rest_i() == ri.drop_first()
                                && final(self).rest_j() == rj
                        }
                }
            }),
    {
        let ghost oi = self.rest_i();
        let ghost oj = self.rest_j();
        let has_i = self.pos_i < self.i.len();
        let has_j = self.pos_j < self.j.len();
        if !has_i && !has_j {
            return None;
        }
        if !has_i {
            let v = self.j[self.pos_j];
            self.pos_j = self.pos_j + 1;
            proof {
                assert(self.rest_j() == oj.drop_first());
            }
            return Some(v);
        }
        if !has_j {
            let v = self.i[self.pos_i];
            self.pos_i = self.pos_i + 1;
            proof {
                assert(self.rest_i() == oi.drop_first());
            }
            return Some(v);
        }
        let vi = self.i[self.pos_i];
        let vj = self.j[self.pos_j];
        proof {
            assert(oi[0] == vi);
            assert(oj[0] == vj);
            assert(self.order == old(self).comparator());
            assert(old(self).comparator().requires((&vi, &vj)));
        }
        let o = (self.order)(&vi, &vj);
        let greater = match o {
            Ordering::Greater => true,
            _ => false,
        };
        if greater {
            self.pos_j = self.pos_j + 1;
            proof {
                assert(self.rest_j() == oj.drop_first());
            }
            Some(vj)
        } else {
            self.pos_i = self.pos_i + 1;
            proof {
                assert(self.rest_i() == oi.drop_first());
            }
            Some(vi)
        }
    }
}

} // verus!
