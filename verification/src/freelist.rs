use vstd::prelude::*;
use crate::{
    Pool, Traversal, live_count, live_from, live_ids, grown, doubled_len, lemma_live_count_update,
    lemma_live_count_bound, lemma_live_count_full, lemma_live_count_grown,
    lemma_live_count_leaves_out,
    lemma_ascending_visits_each_item_once,
};

verus! {

pub const GROWTH_FACTOR: usize = 2;

#[derive(Clone)]
pub enum Slot<T> {
    Item(T),
    Free { next_free_slot: Option<usize> },
}

/// What a slot holds: its item, or nothing where it is free.
pub open spec fn slot_item<T>(slot: Slot<T>) -> Option<T> {
    match slot {
        Slot::Item(item) => Some(item),
        Slot::Free { .. } => None,
    }
}

/// A free slot that points to the free slot `next`.
pub open spec fn free_slot<T>(next: Option<usize>) -> Slot<T> {
    Slot::Free { next_free_slot: next }
}

/// What the slots hold, by id.
pub open spec fn slot_items<T>(slots: Seq<Slot<T>>) -> Seq<Option<T>> {
    Seq::new(slots.len(), |id: int| slot_item(slots[id]))
}

/// The ids from `from` up to `to`, in ascending order.
pub open spec fn id_range(from: int, to: int) -> Seq<usize> {
    Seq::new((to - from) as nat, |k: int| (from + k) as usize)
}

/// Slot `order[k]` is free and points to slot `order[k + 1]`, or nowhere
/// where it is the last of `order`.
pub open spec fn linked_at<T>(slots: Seq<Slot<T>>, order: Seq<usize>, k: int) -> bool {
    &&& order[k] < slots.len()
    &&& slots[order[k] as int] == free_slot::<T>(
        if k + 1 < order.len() {
            Some(order[k + 1])
        } else {
            None
        },
    )
}

/// `order` is the list of the free slots of `slots`: each free slot occurs
/// in it once and points to the one after it, and the last one points
/// nowhere.
pub open spec fn is_free_list<T>(slots: Seq<Slot<T>>, order: Seq<usize>) -> bool {
    &&& order.no_duplicates()
    &&& forall|k: int| 0 <= k < order.len() ==> #[trigger] linked_at(slots, order, k)
    &&& forall|id: int|
        0 <= id < slots.len() && (#[trigger] slots[id]) is Free ==> order.contains(id as usize)
}

/// Storing an item in the first slot of the list leaves the rest of the list
/// as the list of the free slots.
pub proof fn lemma_take_first<T>(slots: Seq<Slot<T>>, order: Seq<usize>, item: T)
    requires
        is_free_list(slots, order),
        order.len() > 0,
        slots.len() <= usize::MAX,
    ensures
        is_free_list(slots.update(order[0] as int, Slot::Item(item)), order.drop_first()),
        slot_items(slots.update(order[0] as int, Slot::Item(item))) == slot_items(slots).update(
            order[0] as int,
            Some(item),
        ),
{
    let head = order[0];
    assert(linked_at(slots, order, 0));
    let after = slots.update(head as int, Slot::Item(item));
    let rest = order.drop_first();
    assert(slot_items(after) =~= slot_items(slots).update(head as int, Some(item)));
    assert forall|k: int| 0 <= k < rest.len() implies #[trigger] linked_at(after, rest, k) by {
        assert(linked_at(slots, order, k + 1));
        assert(rest[k] == order[k + 1]);
        assert(order[k + 1] != order[0]);
    }
    assert forall|id: int| 0 <= id < after.len() && (#[trigger] after[id]) is Free implies rest.contains(
        id as usize,
    ) by {
        assert(slots[id] is Free);
        let k = choose|k: int| 0 <= k < order.len() && order[k] == id as usize;
        assert(rest[k - 1] == id as usize);
    }
}

/// Freeing a slot that holds an item, with a pointer to the first slot of the
/// list, puts it in front of the list of the free slots.
pub proof fn lemma_put_first<T>(slots: Seq<Slot<T>>, order: Seq<usize>, id: usize)
    requires
        is_free_list(slots, order),
        id < slots.len() <= usize::MAX,
        slots[id as int] is Item,
    ensures
        is_free_list(
            slots.update(
                id as int,
                free_slot::<T>(
                    if order.len() > 0 {
                        Some(order[0])
                    } else {
                        None
                    },
                ),
            ),
            seq![id] + order,
        ),
        slot_items(
            slots.update(
                id as int,
                free_slot::<T>(
                    if order.len() > 0 {
                        Some(order[0])
                    } else {
                        None
                    },
                ),
            ),
        ) == slot_items(slots).update(id as int, None),
{
    let freed = free_slot::<T>(
        if order.len() > 0 {
            Some(order[0])
        } else {
            None
        },
    );
    let after = slots.update(id as int, freed);
    let longer = seq![id] + order;
    assert(slot_items(after) =~= slot_items(slots).update(id as int, None));
    assert forall|k: int| 0 <= k < order.len() implies order[k] != id by {
        assert(linked_at(slots, order, k));
    }
    assert forall|k: int| 0 <= k < longer.len() implies #[trigger] linked_at(after, longer, k) by {
        if k > 0 {
            assert(linked_at(slots, order, k - 1));
            assert(longer[k] == order[k - 1]);
        }
    }
    assert forall|i: int| 0 <= i < after.len() && (#[trigger] after[i]) is Free implies longer.contains(
        i as usize,
    ) by {
        if i == id {
            assert(longer[0] == id);
        } else {
            assert(slots[i] is Free);
            let k = choose|k: int| 0 <= k < order.len() && order[k] == i as usize;
            assert(longer[k + 1] == i as usize);
        }
    }
}

/// A pool whose free slots form a linked list: each free slot holds the id
/// of the next one, and the pool holds the id of the first.
pub struct FreeList<T: Clone> {
    slots: Vec<Slot<T>>,
    next_free_slot: Option<usize>,
    num_items: usize,
    free_order: Ghost<Seq<usize>>,
}

impl<T: Clone + 'static> FreeList<T> {
    /// The ids of the free slots, in the order in which allocations will
    /// take them.
    pub closed spec fn free_list(&self) -> Seq<usize> {
        self.free_order@
    }

    /// Where the list of free slots is empty, every slot holds an item;
    /// where it is not, some slot is free.
    proof fn lemma_full_when_list_is_empty(&self)
        requires
            Pool::wf(self),
        ensures
            live_count(self@) <= self@.len(),
            (self.free_order@.len() == 0) == (live_count(self@) == self@.len()),
    {
        lemma_live_count_bound(self@, 0);
        if self.free_order@.len() == 0 {
            assert forall|id: int| 0 <= id < self@.len() implies self@[id] is Some by {
                if self.slots[id] is Free {
                    assert(self.free_order@.contains(id as usize));
                }
            }
            lemma_live_count_full(self@, 0);
        } else {
            assert(linked_at(self.slots@, self.free_order@, 0));
            lemma_live_count_leaves_out(self@, self.free_order@[0] as int, 0);
        }
    }

    fn expand_if_needed(&mut self)
        requires
            Pool::wf(old(self)),
            old(self).has_room(),
        ensures
            Pool::wf(final(self)),
            final(self)@ == grown(old(self)@, doubled_len(old(self)@)),
            live_count(final(self)@) == live_count(old(self)@),
            final(self).free_list().len() > 0,
            final(self).free_list() == (if old(self).free_list().len() > 0 {
                old(self).free_list()
            } else {
                id_range(old(self)@.len() as int, doubled_len(old(self)@))
            }),
    {
        proof {
            self.lemma_full_when_list_is_empty();
        }
        if self.next_free_slot.is_some() {
            assert(self@ =~= grown(old(self)@, doubled_len(old(self)@)));
            return
        }
        let old_num_items: usize = self.slots.len();
        let new_num_items: usize = if self.slots.len() == 0 {
            1
        } else {
            old_num_items * GROWTH_FACTOR
        };
        for i in old_num_items..(new_num_items - 1)
            invariant
                old_num_items < new_num_items,
                old_num_items == old(self).slots.len(),
                self.slots.len() == i,
                self.num_items == old(self).num_items,
                self.next_free_slot == old(self).next_free_slot,
                forall|id: int| 0 <= id < old_num_items ==> self.slots[id] == old(self).slots[id],
                forall|id: int|
                    old_num_items <= id < i ==> self.slots[id] == free_slot::<T>(Some((id + 1) as usize)),
        {
            self.slots.push(Slot::Free { next_free_slot: Some(i + 1) });
        }
        self.slots.push(Slot::Free { next_free_slot: None });
        self.next_free_slot = Some(old_num_items);
        proof {
            self.free_order@ = id_range(old_num_items as int, new_num_items as int);
            assert(self@ =~= grown(old(self)@, doubled_len(old(self)@)));
            lemma_live_count_grown(old(self)@, doubled_len(old(self)@), 0);
            assert forall|k: int| 0 <= k < self.free_order@.len() implies #[trigger] linked_at(
                self.slots@,
                self.free_order@,
                k,
            ) by {}
            assert forall|id: int|
                0 <= id < self.slots.len() && (#[trigger] self.slots[id]) is Free implies self.free_order@.contains(
                id as usize,
            ) by {
                if id < old_num_items {
                    assert(old(self)@[id] is Some);
                } else {
                    assert(self.free_order@[id - old_num_items] == id as usize);
                }
            }
        }
    }
}

impl<T: Clone + 'static> Pool<T> for FreeList<T> {
    type Iter<'a> = Iter<'a, T>;

    closed spec fn wf(&self) -> bool {
        &&& is_free_list(self.slots@, self.free_order@)
        &&& self.next_free_slot == (if self.free_order@.len() > 0 {
            Some(self.free_order@[0])
        } else {
            None
        })
        &&& self.num_items == live_count(slot_items(self.slots@))
    }

    closed spec fn view(&self) -> Seq<Option<T>> {
        slot_items(self.slots@)
    }

    open spec fn has_room(&self) -> bool {
        doubled_len(self@) <= usize::MAX
    }

    fn new() -> (r: Self)
        ensures
            r.free_list().len() == 0,
    {
        return Self {
            slots: Vec::new(),
            next_free_slot: None,
            num_items: 0,
            free_order: Ghost(Seq::empty()),
        }
    }

    open spec fn can_hold(num_items: usize) -> bool {
        true
    }

    /// The free slots are taken in ascending order of id.
    fn with_capacity(num_items: usize) -> (r: Self)
        ensures
            r@.len() == num_items,
            r.free_list() == id_range(0, num_items as int),
    {
        if num_items == 0 {
            let r = Self {
                slots: Vec::new(),
                next_free_slot: None,
                num_items: 0,
                free_order: Ghost(Seq::empty()),
            };
            assert(r.free_order@ =~= id_range(0, 0));
            return r
        }
        let mut slots: Vec<Slot<T>> = Vec::new();
        for i in 1..num_items
            invariant
                slots.len() == i - 1,
                forall|id: int|
                    0 <= id < i - 1 ==> slots[id] == free_slot::<T>(Some((id + 1) as usize)),
        {
            slots.push(Slot::Free { next_free_slot: Some(i) });
        }
        slots.push(Slot::Free { next_free_slot: None });

        let r = Self {
            slots,
            next_free_slot: Some(0),
            num_items: 0,
            free_order: Ghost(id_range(0, num_items as int)),
        };
        proof {
            lemma_live_count_grown(Seq::<Option<T>>::empty(), num_items as int, 0);
            assert(r@ =~= grown(Seq::<Option<T>>::empty(), num_items as int));
            assert forall|k: int| 0 <= k < r.free_order@.len() implies #[trigger] linked_at(
                r.slots@,
                r.free_order@,
                k,
            ) by {}
            assert forall|id: int|
                0 <= id < r.slots.len() && (#[trigger] r.slots[id]) is Free implies r.free_order@.contains(
                id as usize,
            ) by {
                assert(r.free_order@[id] == id as usize);
            }
        }
        return r
    }

    fn len(&self) -> (r: usize) {
        return self.num_items
    }

    fn get(&self, id: usize) -> (r: &T) {
        match &self.slots[id] {
            Slot::Item(item) => return item,
            Slot::Free { .. } => return vstd::pervasive::unreached(),
        }
    }

    fn get_mut(&mut self, id: usize) -> (r: &mut T)
        ensures
            final(self).free_list() == old(self).free_list(),
    {
        proof {
            assert forall|x: T| #[trigger] live_count(old(self)@.update(id as int, Some(x)))
                == live_count(old(self)@) by {
                lemma_live_count_update(old(self)@, id as int, Some(x), 0);
            }
            assert forall|x: T|
                slot_items(#[trigger] old(self).slots@.update(id as int, Slot::Item(x)))
                    == old(self)@.update(id as int, Some(x)) by {
                assert(slot_items(old(self).slots@.update(id as int, Slot::Item(x))) =~= old(
                    self,
                )@.update(id as int, Some(x)));
            }
            assert forall|x: T|
                is_free_list(
                    #[trigger] old(self).slots@.update(id as int, Slot::Item(x)),
                    old(self).free_order@,
                ) by {
                let after = old(self).slots@.update(id as int, Slot::Item(x));
                assert forall|k: int| 0 <= k < old(self).free_order@.len() implies #[trigger] linked_at(
                    after,
                    old(self).free_order@,
                    k,
                ) by {
                    assert(linked_at(old(self).slots@, old(self).free_order@, k));
                }
                assert forall|i: int|
                    0 <= i < after.len() && (#[trigger] after[i]) is Free implies old(
                    self,
                ).free_order@.contains(i as usize) by {
                    assert(old(self).slots@[i] is Free);
                }
            }
        }
        match &mut self.slots[id] {
            Slot::Item(item) => return item,
            Slot::Free { .. } => return vstd::pervasive::unreached(),
        }
    }

    /// The id is that of the first slot of the list of free slots; where the
    /// list is empty, the slots double first and the id is the first new one.
    fn allocate(&mut self, item: T) -> (id: usize)
        ensures
            final(self)@.len() == doubled_len(old(self)@),
            id == (if old(self).free_list().len() > 0 {
                old(self).free_list()[0]
            } else {
                old(self)@.len() as usize
            }),
            final(self).free_list() == (if old(self).free_list().len() > 0 {
                old(self).free_list().drop_first()
            } else {
                id_range(old(self)@.len() as int + 1, doubled_len(old(self)@))
            }),
    {
        self.expand_if_needed();
        let ghost before = *self;
        let free_slot_for_item: usize = self.next_free_slot.unwrap();
        assert(self.free_order@[0] == free_slot_for_item);
        assert(linked_at(self.slots@, self.free_order@, 0));
        match &self.slots[free_slot_for_item] {
            Slot::Free { next_free_slot } => {
                self.next_free_slot = *next_free_slot;
            },
            Slot::Item(_) => {},
        }
        self.slots[free_slot_for_item] = Slot::Item(item);
        proof {
            self.free_order@ = before.free_order@.drop_first();
            assert(before.slots@.len() == before.slots.len());
            lemma_take_first(before.slots@, before.free_order@, item);
            lemma_live_count_update(before@, free_slot_for_item as int, Some(item), 0);
            lemma_live_count_bound(self@, 0);
            if old(self).free_list().len() == 0 {
                assert(self.free_order@ =~= id_range(
                    old(self)@.len() as int + 1,
                    doubled_len(old(self)@),
                ));
            }
        }
        self.num_items += 1;
        return free_slot_for_item
    }

    /// The slot becomes the first of the list of free slots.
    fn deallocate(&mut self, item_id: usize)
        ensures
            final(self).free_list() == seq![item_id] + old(self).free_list(),
    {
        self.slots[item_id] = Slot::Free { next_free_slot: self.next_free_slot };
        self.next_free_slot = Some(item_id);
        proof {
            self.free_order@ = seq![item_id] + old(self).free_order@;
            assert(old(self).slots@.len() == old(self).slots.len());
            assert(old(self)@[item_id as int] is Some);
            lemma_put_first(old(self).slots@, old(self).free_order@, item_id);
            lemma_live_count_update(old(self)@, item_id as int, None, 0);
        }
        self.num_items -= 1;
    }

    open spec fn iter_order(&self) -> Seq<usize> {
        live_ids(self@, 0)
    }

    /// The items come in ascending order of id.
    fn iter<'a>(&'a self) -> (r: Iter<'a, T>)
        ensures
            r.remaining() == live_from(self@, 0),
    {
        proof {
            assert(self.slots@.len() == self.slots.len());
            lemma_ascending_visits_each_item_once(self@);
        }
        return Iter::new(&self.slots)
    }
}

/// Walks the items of a `FreeList` pool in ascending order of id.
pub struct Iter<'a, T> {
    slots: &'a Vec<Slot<T>>,
    next_id: usize,
}

impl<'a, T> Iter<'a, T> {
    fn new(slots: &'a Vec<Slot<T>>) -> (r: Self)
        ensures
            r.wf(),
            r.remaining() == live_from(slot_items(slots@), 0),
    {
        return Self { slots, next_id: 0 }
    }
}

impl<'a, T> Traversal for Iter<'a, T> {
    type Item = &'a T;

    closed spec fn wf(&self) -> bool {
        self.next_id <= self.slots.len()
    }

    closed spec fn remaining(&self) -> Seq<&'a T> {
        live_from(slot_items(self.slots@), self.next_id as int)
    }

    fn next(&mut self) -> (r: Option<&'a T>) {
        loop
            invariant
                self.slots == old(self).slots,
                self.wf(),
                self.remaining() == old(self).remaining(),
            decreases self.slots.len() - self.next_id,
        {
            if self.next_id >= self.slots.len() {
                return None
            }
            let id: usize = self.next_id;
            self.next_id += 1;
            match &self.slots[id] {
                Slot::Item(item) => {
                    assert(old(self).remaining().drop_first() =~= self.remaining());
                    return Some(item)
                },
                Slot::Free { .. } => {},
            }
        }
    }
}

} // verus!
