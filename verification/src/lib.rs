//! Slot-allocation pools: containers that hand out stable integer ids for the
//! items stored in them and reuse the slots of items that were given back.

use vstd::prelude::*;

pub mod flag_based;
pub mod simple;
pub mod freelist;
pub mod reference;
pub mod flag_block;
pub mod stacks;
pub mod notsafe;

verus! {

/// A finite traversal that hands out one item per call of `next`.
///
/// `remaining` is the sequence of items that are still to come, in the order
/// in which `next` will return them.
pub trait Traversal {
    type Item;

    /// The internal invariant of the traversal.
    spec fn wf(&self) -> bool;

    /// The items that have not been returned yet, in order.
    spec fn remaining(&self) -> Seq<Self::Item>;

    /// Returns the first remaining item and drops it from `remaining`, or
    /// `None` when nothing remains.
    fn next(&mut self) -> (r: Option<Self::Item>)
        requires
            old(self).wf(),
        ensures
            final(self).wf(),
            match r {
                Some(x) => old(self).remaining().len() > 0 && x == old(self).remaining()[0]
                    && final(self).remaining() == old(self).remaining().drop_first(),
                None => old(self).remaining().len() == 0 && final(self).remaining().len() == 0,
            },
    ;
}

/// The number of slots from `from` on that hold an item.
pub open spec fn live_count_from<T>(slots: Seq<Option<T>>, from: int) -> nat
    decreases slots.len() - from,
{
    if from < 0 || from >= slots.len() {
        0
    } else if slots[from] is Some {
        1 + live_count_from(slots, from + 1)
    } else {
        live_count_from(slots, from + 1)
    }
}

/// The number of slots that hold an item.
pub open spec fn live_count<T>(slots: Seq<Option<T>>) -> nat {
    live_count_from(slots, 0)
}

/// The items held by the slots from `from` on, in ascending order of id.
pub open spec fn live_from<'a, T>(slots: Seq<Option<T>>, from: int) -> Seq<&'a T>
    decreases slots.len() - from,
{
    if from < 0 || from >= slots.len() {
        Seq::empty()
    } else if slots[from] is Some {
        seq![&slots[from]->0] + live_from(slots, from + 1)
    } else {
        live_from(slots, from + 1)
    }
}

/// The ids of the slots from `from` on that hold an item, in ascending order.
pub open spec fn live_ids<T>(slots: Seq<Option<T>>, from: int) -> Seq<usize>
    decreases slots.len() - from,
{
    if from < 0 || from >= slots.len() {
        Seq::empty()
    } else if slots[from] is Some {
        seq![from as usize] + live_ids(slots, from + 1)
    } else {
        live_ids(slots, from + 1)
    }
}

/// The items in the slots `ids`, in the order of `ids`.
pub open spec fn items_at<'a, T>(ids: Seq<usize>, slots: Seq<Option<T>>) -> Seq<&'a T> {
    Seq::new(ids.len(), |k: int| &slots[ids[k] as int]->0)
}

/// The ids in `ids` are those of slots that hold an item.
pub open spec fn all_live<T>(ids: Seq<usize>, slots: Seq<Option<T>>) -> bool {
    forall|k: int| 0 <= k < ids.len() ==> is_live(slots, #[trigger] ids[k] as int)
}

/// `ids` names every slot that holds an item, each of them once, and no
/// other slot.
pub open spec fn visits_each_item_once<T>(ids: Seq<usize>, slots: Seq<Option<T>>) -> bool {
    &&& ids.no_duplicates()
    &&& all_live(ids, slots)
    &&& forall|id: int| is_live(slots, id) ==> ids.contains(id as usize)
}

/// Slot `id` exists and holds an item.
pub open spec fn is_live<T>(slots: Seq<Option<T>>, id: int) -> bool {
    0 <= id < slots.len() && slots[id] is Some
}

/// `id` is the lowest slot that holds no item.
pub open spec fn is_first_free<T>(slots: Seq<Option<T>>, id: int) -> bool {
    &&& 0 <= id < slots.len()
    &&& slots[id] is None
    &&& forall|j: int| 0 <= j < id ==> slots[j] is Some
}

/// The slots `slots`, followed by empty slots up to the length `len`.
pub open spec fn grown<T>(slots: Seq<Option<T>>, len: int) -> Seq<Option<T>> {
    Seq::new(
        len as nat,
        |i: int|
            if i < slots.len() {
                slots[i]
            } else {
                None
            },
    )
}

/// The number of slots after an allocation under the doubling policy: as
/// many as before while a slot is free, else one slot for an empty pool and
/// twice as many for any other.
pub open spec fn doubled_len<T>(slots: Seq<Option<T>>) -> int {
    if live_count(slots) < slots.len() {
        slots.len() as int
    } else if slots.len() == 0 {
        1
    } else {
        2 * (slots.len() as int)
    }
}

/// Writing slot `id` changes the count by what the slot gains or loses.
pub proof fn lemma_live_count_update<T>(slots: Seq<Option<T>>, id: int, value: Option<T>, from: int)
    requires
        0 <= id < slots.len(),
        0 <= from,
    ensures
        live_count_from(slots.update(id, value), from) + (if id >= from && slots[id] is Some {
            1int
        } else {
            0int
        }) == live_count_from(slots, from) + (if id >= from && value is Some {
            1int
        } else {
            0int
        }),
    decreases slots.len() - from,
{
    if from < slots.len() {
        lemma_live_count_update(slots, id, value, from + 1);
    }
}

/// No more slots hold an item than there are slots.
pub proof fn lemma_live_count_bound<T>(slots: Seq<Option<T>>, from: int)
    requires
        0 <= from <= slots.len(),
    ensures
        live_count_from(slots, from) <= slots.len() - from,
    decreases slots.len() - from,
{
    if from < slots.len() {
        lemma_live_count_bound(slots, from + 1);
    }
}

/// A free slot is one that the count leaves out.
pub proof fn lemma_live_count_leaves_out<T>(slots: Seq<Option<T>>, id: int, from: int)
    requires
        0 <= from <= id < slots.len(),
        slots[id] is None,
    ensures
        live_count_from(slots, from) < slots.len() - from,
    decreases slots.len() - from,
{
    if from < id {
        lemma_live_count_leaves_out(slots, id, from + 1);
    } else {
        lemma_live_count_bound(slots, from + 1);
    }
}

/// Where fewer slots hold an item than there are slots, some slot is free.
pub proof fn lemma_some_slot_is_free<T>(slots: Seq<Option<T>>, from: int) -> (id: int)
    requires
        0 <= from <= slots.len(),
        live_count_from(slots, from) < slots.len() - from,
    ensures
        from <= id < slots.len(),
        slots[id] is None,
    decreases slots.len() - from,
{
    if slots[from] is None {
        from
    } else {
        lemma_some_slot_is_free(slots, from + 1)
    }
}

/// Where every slot is taken, the count is the number of slots.
pub proof fn lemma_live_count_full<T>(slots: Seq<Option<T>>, from: int)
    requires
        0 <= from <= slots.len(),
        forall|i: int| from <= i < slots.len() ==> slots[i] is Some,
    ensures
        live_count_from(slots, from) == slots.len() - from,
    decreases slots.len() - from,
{
    if from < slots.len() {
        lemma_live_count_full(slots, from + 1);
    }
}

/// Empty slots at the end do not count.
pub proof fn lemma_live_count_grown<T>(slots: Seq<Option<T>>, len: int, from: int)
    requires
        0 <= from,
        slots.len() <= len,
    ensures
        live_count_from(grown(slots, len), from) == live_count_from(slots, from),
    decreases len - from,
{
    if from < len {
        lemma_live_count_grown(slots, len, from + 1);
    }
}

/// Walking the slots gives as many items as the count says.
pub proof fn lemma_live_from_len<T>(slots: Seq<Option<T>>, from: int)
    ensures
        live_from(slots, from).len() == live_count_from(slots, from),
    decreases slots.len() - from,
{
    if 0 <= from < slots.len() {
        lemma_live_from_len(slots, from + 1);
    }
}

/// The ids that `live_ids` gives are ascending, start at `from`, and are those
/// of the slots from `from` on that hold an item.
pub proof fn lemma_live_ids_ascend<T>(slots: Seq<Option<T>>, from: int)
    requires
        0 <= from,
        slots.len() <= usize::MAX,
    ensures
        all_live(live_ids(slots, from), slots),
        forall|k: int| 0 <= k < live_ids(slots, from).len() ==> from <= #[trigger] live_ids(slots, from)[k],
        forall|j: int, k: int|
            0 <= j < k < live_ids(slots, from).len() ==> live_ids(slots, from)[j] < live_ids(
                slots,
                from,
            )[k],
        forall|id: int| from <= id && is_live(slots, id) ==> live_ids(slots, from).contains(id as usize),
    decreases slots.len() - from,
{
    let ids = live_ids(slots, from);
    if from < slots.len() {
        lemma_live_ids_ascend(slots, from + 1);
        let rest = live_ids(slots, from + 1);
        if slots[from] is Some {
            assert(ids[0] == from);
            assert forall|k: int| 1 <= k < ids.len() implies ids[k] == rest[k - 1] by {}
            assert forall|id: int| from <= id && is_live(slots, id) implies ids.contains(
                id as usize,
            ) by {
                if id > from {
                    let k = choose|k: int| 0 <= k < rest.len() && rest[k] == id as usize;
                    assert(ids[k + 1] == id as usize);
                }
            }
        }
    }
}

/// Walking the slots in ascending order of id visits each item once, and
/// gives the items that `live_from` gives.
pub proof fn lemma_ascending_visits_each_item_once<T>(slots: Seq<Option<T>>)
    requires
        slots.len() <= usize::MAX,
    ensures
        visits_each_item_once(live_ids(slots, 0), slots),
        items_at(live_ids(slots, 0), slots) == live_from(slots, 0),
{
    lemma_live_ids_ascend(slots, 0);
    lemma_items_at_live_ids(slots, 0);
}

/// The items in the slots that `live_ids` names are those that `live_from`
/// gives.
pub proof fn lemma_items_at_live_ids<T>(slots: Seq<Option<T>>, from: int)
    requires
        slots.len() <= usize::MAX,
    ensures
        items_at(live_ids(slots, from), slots) == live_from(slots, from),
    decreases slots.len() - from,
{
    if 0 <= from < slots.len() {
        lemma_items_at_live_ids(slots, from + 1);
    }
    assert(items_at(live_ids(slots, from), slots) =~= live_from(slots, from));
}

/// After an allocation the slot of the returned id holds the item that was
/// given.
pub proof fn lemma_allocate_then_get<T>(before: Seq<Option<T>>, len: int, id: int, item: T)
    requires
        before.len() <= len,
        0 <= id < len,
    ensures
        is_live(grown(before, len).update(id, Some(item)), id),
        grown(before, len).update(id, Some(item))[id] == Some(item),
{
}

/// After a deallocation the slot of the id holds no item, so that a `get`
/// of that id is not allowed.
pub proof fn lemma_deallocate_then_get<T>(before: Seq<Option<T>>, id: int)
    requires
        is_live(before, id),
    ensures
        !is_live(before.update(id, None), id),
{
}

/// An allocation takes the number of items up by one and drops no slot.
pub proof fn lemma_allocation_adds_one<T>(before: Seq<Option<T>>, len: int, id: int, item: T)
    requires
        before.len() <= len,
        0 <= id < len,
        !is_live(before, id),
    ensures
        live_count(grown(before, len).update(id, Some(item))) == live_count(before) + 1,
        grown(before, len).update(id, Some(item)).len() >= before.len(),
{
    lemma_live_count_grown(before, len, 0);
    lemma_live_count_update(grown(before, len), id, Some(item), 0);
}

/// Writing to an item keeps the number of items and the number of slots.
pub proof fn lemma_overwrite_keeps_count<T>(before: Seq<Option<T>>, id: int, item: T)
    requires
        is_live(before, id),
    ensures
        live_count(before.update(id, Some(item))) == live_count(before),
        before.update(id, Some(item)).len() == before.len(),
{
    lemma_live_count_update(before, id, Some(item), 0);
}

/// A deallocation takes the number of items down by one and keeps the
/// number of slots.
pub proof fn lemma_deallocation_takes_one<T>(before: Seq<Option<T>>, id: int)
    requires
        is_live(before, id),
    ensures
        live_count(before.update(id, None)) == live_count(before) - 1,
        before.update(id, None).len() == before.len(),
{
    lemma_live_count_update(before, id, None, 0);
}

/// A container of items that hands out a stable id for each item stored in
/// it, and reuses the ids of the items that were removed.
///
/// The model of a pool is the sequence of its slots: slot `id` holds the
/// item allocated under `id`, or nothing.
pub trait Pool<T>: Sized {
    type Iter<'a>: Traversal<Item = &'a T> where Self: 'a, T: 'a;

    /// The internal invariant of the pool.
    spec fn wf(&self) -> bool;

    /// The slots, by id.
    spec fn view(&self) -> Seq<Option<T>>;

    /// Whether the ids that the next allocation may hand out fit the machine's
    /// word.
    spec fn has_room(&self) -> bool;

    /// An empty pool without a slot.
    fn new() -> (r: Self)
        ensures
            r.wf(),
            r@.len() == 0,
    ;

    /// Whether the slots that a pool for `num_items` items starts with can
    /// be counted in the machine's word.
    spec fn can_hold(num_items: usize) -> bool;

    /// An empty pool that is laid out for `num_items` items.
    fn with_capacity(num_items: usize) -> (r: Self)
        requires
            Self::can_hold(num_items),
        ensures
            r.wf(),
            forall|id: int| 0 <= id < r@.len() ==> r@[id] is None,
    ;

    /// The number of items in the pool.
    fn len(&self) -> (r: usize)
        requires
            self.wf(),
        ensures
            r == live_count(self@),
    ;

    /// The item in slot `id`, which has to hold one.
    fn get(&self, id: usize) -> (r: &T)
        requires
            self.wf(),
            is_live(self@, id as int),
        ensures
            self@[id as int] == Some(*r),
    ;

    /// The item in slot `id`, which has to hold one, to be written to. The
    /// slot holds what was written, and nothing else changes.
    fn get_mut(&mut self, id: usize) -> (r: &mut T)
        requires
            old(self).wf(),
            is_live(old(self)@, id as int),
        ensures
            old(self)@[id as int] == Some(*r),
            final(self).wf(),
            final(self)@ == old(self)@.update(id as int, Some(*final(r))),
            live_count(final(self)@) == live_count(old(self)@),
    ;

    /// Stores `item` in a slot that held nothing and returns the slot's id.
    /// The slots that held an item keep it, and no slot is dropped.
    fn allocate(&mut self, item: T) -> (id: usize)
        requires
            old(self).wf(),
            old(self).has_room(),
        ensures
            final(self).wf(),
            old(self)@.len() <= final(self)@.len(),
            id < final(self)@.len(),
            !is_live(old(self)@, id as int),
            final(self)@ == grown(old(self)@, final(self)@.len() as int).update(
                id as int,
                Some(item),
            ),
            live_count(final(self)@) == live_count(old(self)@) + 1,
    ;

    /// Drops the item in slot `id`, which becomes free for reuse.
    fn deallocate(&mut self, id: usize)
        requires
            old(self).wf(),
            is_live(old(self)@, id as int),
        ensures
            final(self).wf(),
            final(self)@ == old(self)@.update(id as int, None),
            live_count(final(self)@) == live_count(old(self)@) - 1,
    ;

    /// The ids of the items, in the order in which `iter` visits them.
    spec fn iter_order(&self) -> Seq<usize>;

    /// Walks the items of the pool, each of them once.
    fn iter<'a>(&'a self) -> (r: Self::Iter<'a>)
        requires
            self.wf(),
        ensures
            r.wf(),
            r.remaining() == items_at(self.iter_order(), self@),
            visits_each_item_once(self.iter_order(), self@),
    ;
}

} // verus!
