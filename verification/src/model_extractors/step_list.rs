//! The list of RBF steps, an `index_list::IndexList` of `(delta, work)`
//! pairs.
//!
//! An `IndexList` is a doubly-linked list whose elements are reached through
//! handles (`ListIndex`); the handle of an element does not change while the
//! element is in the list. Its contents are described by three names: the
//! elements in list order, the handle of each element, and the number of
//! slots the list has allocated (handles are built from slot numbers, which
//! must fit in a `u32`).

use index_list::{IndexList, ListIndex};
use vstd::prelude::*;

verus! {

#[verifier::external_type_specification]
#[verifier::external_body]
#[verifier::reject_recursive_types(T)]
pub struct ExIndexList<T>(IndexList<T>);

#[verifier::external_type_specification]
#[verifier::external_body]
pub struct ExListIndex(ListIndex);

/// The elements of a list, in list order.
pub uninterp spec fn list_items(l: IndexList<(u64, u64)>) -> Seq<(u64, u64)>;

/// The handle of each element of a list, in list order.
pub uninterp spec fn list_handles(l: IndexList<(u64, u64)>) -> Seq<ListIndex>;

/// The number of element slots a list has allocated.
pub uninterp spec fn list_slots(l: IndexList<(u64, u64)>) -> nat;

/// Every element has its own handle, and a slot.
pub open spec fn list_wf(l: IndexList<(u64, u64)>) -> bool {
    &&& list_handles(l).len() == list_items(l).len()
    &&& list_items(l).len() <= list_slots(l)
    &&& forall|i: int, j: int|
        0 <= i < j < list_handles(l).len() ==> list_handles(l)[i] != list_handles(l)[j]
}

/// The handle of position `p`, or `None` past the end.
pub open spec fn handle_at(l: IndexList<(u64, u64)>, p: int) -> Option<ListIndex> {
    if 0 <= p < list_handles(l).len() {
        Some(list_handles(l)[p])
    } else {
        None
    }
}

/// `IndexList::new`: an empty list with no slot.
#[verifier::external_body]
pub(crate) fn list_new() -> (r: IndexList<(u64, u64)>)
    ensures
        list_items(r) == Seq::<(u64, u64)>::empty(),
        list_handles(r) == Seq::<ListIndex>::empty(),
        list_slots(r) == 0,
{
    IndexList::new()
}

/// `IndexList::len`: the number of elements.
#[verifier::external_body]
pub(crate) fn list_len(l: &IndexList<(u64, u64)>) -> (r: usize)
    ensures
        r == list_items(*l).len(),
{
    l.len()
}

/// `IndexList::first_index`: the handle of the first element, if any.
#[verifier::external_body]
pub(crate) fn list_first(l: &IndexList<(u64, u64)>) -> (r: Option<ListIndex>)
    requires
        list_wf(*l),
    ensures
        r == handle_at(*l, 0),
{
    let i = l.first_index();
    if i.is_some() {
        Some(i)
    } else {
        None
    }
}

/// `IndexList::next_index`: the handle of the element after the one of
/// handle `h`, if any.
#[verifier::external_body]
pub(crate) fn list_next(l: &IndexList<(u64, u64)>, h: ListIndex) -> (r: Option<ListIndex>)
    requires
        list_wf(*l),
        list_handles(*l).contains(h),
    ensures
        forall|i: int|
            0 <= i < list_handles(*l).len() && #[trigger] list_handles(*l)[i] == h ==> r
                == handle_at(*l, i + 1),
{
    let i = l.next_index(h);
    if i.is_some() {
        Some(i)
    } else {
        None
    }
}

/// `IndexList::prev_index`: the handle of the element before the one of
/// handle `h`, if any.
#[verifier::external_body]
pub(crate) fn list_prev(l: &IndexList<(u64, u64)>, h: ListIndex) -> (r: Option<ListIndex>)
    requires
        list_wf(*l),
        list_handles(*l).contains(h),
    ensures
        forall|i: int|
            0 <= i < list_handles(*l).len() && #[trigger] list_handles(*l)[i] == h ==> r
                == handle_at(*l, i - 1),
{
    let i = l.prev_index(h);
    if i.is_some() {
        Some(i)
    } else {
        None
    }
}

/// `IndexList::get`: the element of handle `h`.
#[verifier::external_body]
pub(crate) fn list_get(l: &IndexList<(u64, u64)>, h: ListIndex) -> (r: Option<(u64, u64)>)
    requires
        list_wf(*l),
        list_handles(*l).contains(h),
    ensures
        forall|i: int|
            0 <= i < list_handles(*l).len() && #[trigger] list_handles(*l)[i] == h ==> r == Some(
                list_items(*l)[i],
            ),
{
    l.get(h).copied()
}

/// `IndexList::get_mut`, written through: replaces the element of handle `h`.
#[verifier::external_body]
pub(crate) fn list_set(l: &mut IndexList<(u64, u64)>, h: ListIndex, v: (u64, u64))
    requires
        list_wf(*old(l)),
        list_handles(*old(l)).contains(h),
    ensures
        list_handles(*final(l)) == list_handles(*old(l)),
        list_slots(*final(l)) == list_slots(*old(l)),
        forall|i: int|
            0 <= i < list_handles(*old(l)).len() && #[trigger] list_handles(*old(l))[i] == h
                ==> list_items(*final(l)) == list_items(*old(l)).update(i, v),
{
    if let Some(s) = l.get_mut(h) {
        *s = v;
    }
}

/// `IndexList::insert_last`: appends `v`, in a new handle.
#[verifier::external_body]
pub(crate) fn list_insert_last(l: &mut IndexList<(u64, u64)>, v: (u64, u64)) -> (r: ListIndex)
    requires
        list_wf(*old(l)),
        list_slots(*old(l)) < u32::MAX,
    ensures
        list_wf(*final(l)),
        list_items(*final(l)) == list_items(*old(l)).push(v),
        list_handles(*final(l)) == list_handles(*old(l)).push(r),
        list_slots(*final(l)) <= list_slots(*old(l)) + 1,
{
    l.insert_last(v)
}

/// `IndexList::insert_before`: inserts `v` before the element of handle
/// `h`, in a new handle.
#[verifier::external_body]
pub(crate) fn list_insert_before(l: &mut IndexList<(u64, u64)>, h: ListIndex, v: (u64, u64)) -> (r:
    ListIndex)
    requires
        list_wf(*old(l)),
        list_handles(*old(l)).contains(h),
        list_slots(*old(l)) < u32::MAX,
    ensures
        list_wf(*final(l)),
        list_slots(*final(l)) <= list_slots(*old(l)) + 1,
        forall|i: int|
            0 <= i < list_handles(*old(l)).len() && #[trigger] list_handles(*old(l))[i] == h
                ==> list_items(*final(l)) == list_items(*old(l)).insert(i, v) && list_handles(
                *final(l),
            ) == list_handles(*old(l)).insert(i, r),
{
    l.insert_before(h, v)
}

/// `IndexList::remove`: removes the element of handle `h` and returns it.
#[verifier::external_body]
pub(crate) fn list_remove(l: &mut IndexList<(u64, u64)>, h: ListIndex) -> (r: Option<(u64, u64)>)
    requires
        list_wf(*old(l)),
        list_handles(*old(l)).contains(h),
    ensures
        list_wf(*final(l)),
        list_slots(*final(l)) == list_slots(*old(l)),
        forall|i: int|
            0 <= i < list_handles(*old(l)).len() && #[trigger] list_handles(*old(l))[i] == h
                ==> r == Some(list_items(*old(l))[i]) && list_items(*final(l)) == list_items(
                *old(l),
            ).remove(i) && list_handles(*final(l)) == list_handles(*old(l)).remove(i),
{
    l.remove(h)
}

/// `IndexList::remove_last`: removes the last element and returns it.
#[verifier::external_body]
pub(crate) fn list_remove_last(l: &mut IndexList<(u64, u64)>) -> (r: Option<(u64, u64)>)
    requires
        list_wf(*old(l)),
    ensures
        list_wf(*final(l)),
        list_slots(*final(l)) == list_slots(*old(l)),
        list_items(*old(l)).len() == 0 ==> r is None && list_items(*final(l)) == list_items(
            *old(l),
        ) && list_handles(*final(l)) == list_handles(*old(l)),
        list_items(*old(l)).len() > 0 ==> r == Some(list_items(*old(l)).last()) && list_items(
            *final(l),
        ) == list_items(*old(l)).drop_last() && list_handles(*final(l)) == list_handles(
            *old(l),
        ).drop_last(),
{
    l.remove_last()
}

/// `IndexList::get_last`: the last element, if any.
#[verifier::external_body]
pub(crate) fn list_last(l: &IndexList<(u64, u64)>) -> (r: Option<(u64, u64)>)
    ensures
        list_items(*l).len() == 0 ==> r is None,
        list_items(*l).len() > 0 ==> r == Some(list_items(*l).last()),
{
    l.get_last().copied()
}

} // verus!
