//! Tracking the `k`-th largest of a stream of values with a
//! `min_max_heap::MinMaxHeap` of at most `k` values.

use min_max_heap::MinMaxHeap;
use vstd::multiset::Multiset;
use vstd::prelude::*;

verus! {

broadcast use vstd::multiset::group_multiset_axioms;

#[verifier::external_type_specification]
#[verifier::external_body]
#[verifier::reject_recursive_types(T)]
pub struct ExMinMaxHeap<T>(MinMaxHeap<T>);

/// The values a heap holds.
pub uninterp spec fn heap_items(h: MinMaxHeap<u64>) -> Multiset<u64>;

/// The most values a heap can be asked to hold: their bytes, and twice
/// that when the heap grows, stay within `isize::MAX`.
pub open spec fn heap_room() -> int {
    isize::MAX as int / 16
}

/// `r` is a smallest value of `m`.
pub open spec fn is_min_of(m: Multiset<u64>, r: u64) -> bool {
    &&& m.count(r) > 0
    &&& forall|y: u64| m.count(y) > 0 ==> r <= y
}

/// `MinMaxHeap::with_capacity`: an empty heap.
#[verifier::external_body]
fn heap_with_capacity(k: usize) -> (r: MinMaxHeap<u64>)
    requires
        k <= heap_room(),
    ensures
        heap_items(r) =~= Multiset::<u64>::empty(),
{
    MinMaxHeap::with_capacity(k)
}

/// `MinMaxHeap::len`: the number of values held.
#[verifier::external_body]
fn heap_len(h: &MinMaxHeap<u64>) -> (r: usize)
    ensures
        r == heap_items(*h).len(),
{
    h.len()
}

/// `MinMaxHeap::push`: adds a value.
#[verifier::external_body]
fn heap_push(h: &mut MinMaxHeap<u64>, v: u64)
    requires
        heap_items(*old(h)).len() < heap_room(),
    ensures
        heap_items(*final(h)) =~= heap_items(*old(h)).insert(v),
{
    h.push(v)
}

/// `MinMaxHeap::push_pop_min`: adds a value, then takes out and returns a
/// smallest value.
#[verifier::external_body]
fn heap_push_pop_min(h: &mut MinMaxHeap<u64>, v: u64) -> (r: u64)
    ensures
        is_min_of(heap_items(*old(h)).insert(v), r),
        heap_items(*final(h)) =~= heap_items(*old(h)).insert(v).remove(r),
{
    h.push_pop_min(v)
}

/// `MinMaxHeap::peek_min`: a smallest value, if any.
#[verifier::external_body]
fn heap_peek_min(h: &MinMaxHeap<u64>) -> (r: Option<u64>)
    ensures
        r is None <==> heap_items(*h).len() == 0,
        r matches Some(m) ==> is_min_of(heap_items(*h), m),
{
    h.peek_min().copied()
}

/// Keeps the `k` largest values it has seen; its reading is the smallest of
/// them, the `k`-th largest value seen.
pub struct KthMaxTracker {
    k: usize,
    heap: MinMaxHeap<u64>,
}

impl KthMaxTracker {
    /// How many values are kept.
    pub closed spec fn rank(&self) -> nat {
        self.k as nat
    }

    /// The values kept.
    pub closed spec fn kept(&self) -> Multiset<u64> {
        heap_items(self.heap)
    }

    /// No more than `k` values are kept, and `k` fits the heap.
    pub open spec fn wf(&self) -> bool {
        &&& self.kept().len() <= self.rank()
        &&& self.rank() <= heap_room()
    }

    /// A tracker of the `k` largest values, holding none yet.
    pub fn new(k: usize) -> (r: Self)
        requires
            k <= heap_room(),
        ensures
            r.wf(),
            r.rank() == k,
            r.kept() =~= Multiset::<u64>::empty(),
    {
        KthMaxTracker { k, heap: heap_with_capacity(k) }
    }

    /// Adds a value: while fewer than `k` values are kept it is kept too;
    /// after that a smallest of the kept values and `val` is dropped. No
    /// value dropped is larger than a value kept.
    pub fn update(&mut self, val: u64)
        requires
            old(self).wf(),
        ensures
            final(self).wf(),
            final(self).rank() == old(self).rank(),
            old(self).kept().len() < old(self).rank() ==> final(self).kept() =~= old(
                self,
            ).kept().insert(val),
            old(self).kept().len() == old(self).rank() ==> exists|r: u64|
                #[trigger] is_min_of(old(self).kept().insert(val), r) && final(self).kept()
                    =~= old(self).kept().insert(val).remove(r),
            forall|x: u64, y: u64|
                old(self).kept().insert(val).count(x) > #[trigger] final(self).kept().count(x)
                    && #[trigger] final(self).kept().count(y) > 0 ==> x <= y,
    {
        let n = heap_len(&self.heap);
        if n < self.k {
            heap_push(&mut self.heap, val);
        } else {
            let r = heap_push_pop_min(&mut self.heap, val);
            assert(is_min_of(old(self).kept().insert(val), r));
        }
    }

    /// The `k`-th largest value seen: the smallest value kept, once `k`
    /// values are kept; `None` before (and always when `k` is 0).
    pub fn get(&self) -> (r: Option<u64>)
        requires
            self.wf(),
        ensures
            r is None <==> (self.kept().len() < self.rank() || self.kept().len() == 0),
            r matches Some(m) ==> is_min_of(self.kept(), m),
    {
        if heap_len(&self.heap) < self.k {
            None
        } else {
            heap_peek_min(&self.heap)
        }
    }
}

} // verus!
