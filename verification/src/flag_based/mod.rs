use vstd::prelude::*;
use crate::{
    Pool, Traversal, live_count, live_from, live_ids, items_at, all_live, is_live, is_first_free,
    grown, doubled_len, lemma_live_count_update, lemma_live_count_bound, lemma_some_slot_is_free,
    lemma_live_count_grown, lemma_ascending_visits_each_item_once,
};

pub mod word;
pub mod bit;
pub mod bool;
pub mod hierarchical;

verus! {

/// The indices `i >= from` at which `s` is true, in ascending order.
pub open spec fn true_from(s: Seq<bool>, from: int) -> Seq<usize>
    decreases s.len() - from,
{
    if from < 0 || from >= s.len() {
        Seq::empty()
    } else if s[from] {
        seq![from as usize] + true_from(s, from + 1)
    } else {
        true_from(s, from + 1)
    }
}

/// Where `s` is false from `from` up to `to`, walking from `from` gives what
/// walking from `to` gives.
pub proof fn lemma_true_from_skips(s: Seq<bool>, from: int, to: int)
    requires
        0 <= from <= to <= s.len(),
        forall|x: int| from <= x < to ==> !s[x],
    ensures
        true_from(s, from) == true_from(s, to),
    decreases to - from,
{
    if from < to {
        lemma_true_from_skips(s, from + 1, to);
    }
}

/// The indices that `true_from` gives are ascending, and are those from
/// `from` on at which `s` is true.
pub proof fn lemma_true_from_ascends(s: Seq<bool>, from: int)
    requires
        0 <= from,
        s.len() <= usize::MAX,
    ensures
        forall|k: int|
            0 <= k < true_from(s, from).len() ==> from <= #[trigger] true_from(s, from)[k] < s.len()
                && s[true_from(s, from)[k] as int],
        forall|j: int, k: int|
            0 <= j < k < true_from(s, from).len() ==> true_from(s, from)[j] < true_from(s, from)[k],
        forall|i: int| from <= i < s.len() && s[i] ==> true_from(s, from).contains(i as usize),
    decreases s.len() - from,
{
    let found = true_from(s, from);
    if from < s.len() {
        lemma_true_from_ascends(s, from + 1);
        let rest = true_from(s, from + 1);
        if s[from] {
            assert(found[0] == from);
            assert forall|k: int| 1 <= k < found.len() implies found[k] == rest[k - 1] by {}
            assert forall|i: int| from <= i < s.len() && s[i] implies found.contains(
                i as usize,
            ) by {
                if i > from {
                    let k = choose|k: int| 0 <= k < rest.len() && rest[k] == i as usize;
                    assert(found[k + 1] == i as usize);
                }
            }
        }
    }
}

/// `i` is the lowest index at which `s` is true.
pub open spec fn is_first_true(s: Seq<bool>, i: int) -> bool {
    &&& 0 <= i < s.len()
    &&& s[i]
    &&& forall|j: int| 0 <= j < i ==> !s[j]
}

/// `s` is true nowhere.
pub open spec fn none_true(s: Seq<bool>) -> bool {
    forall|j: int| 0 <= j < s.len() ==> !s[j]
}

/// A growable vector of boolean flags in which a true flag can be found and
/// the true flags can be walked.
pub trait FlagVec: Sized {
    type TrueFlagsIter<'a>: Traversal<Item = usize> where Self: 'a;

    /// The internal invariant of the vector.
    spec fn wf(&self) -> bool;

    /// The flags, as a sequence of booleans.
    spec fn view(&self) -> Seq<bool>;

    fn new() -> (r: Self)
        ensures
            r.wf(),
            r@ == Seq::<bool>::empty(),
    ;

    fn with_flags(num_flags: usize, value: bool) -> (r: Self)
        ensures
            r.wf(),
            r@ == Seq::new(num_flags as nat, |i: int| value),
    ;

    fn num_flags(&self) -> (r: usize)
        requires
            self.wf(),
        ensures
            r == self@.len(),
    ;

    fn get_flag(&self, flag: usize) -> (r: bool)
        requires
            self.wf(),
            flag < self@.len(),
        ensures
            r == self@[flag as int],
    ;

    fn set_flag(&mut self, flag: usize, value: bool)
        requires
            old(self).wf(),
            flag < old(self)@.len(),
        ensures
            final(self).wf(),
            final(self)@ == old(self)@.update(flag as int, value),
    ;

    fn add_flags(&mut self, num_flags: usize, value: bool)
        requires
            old(self).wf(),
            old(self)@.len() + num_flags <= usize::MAX,
        ensures
            final(self).wf(),
            final(self)@ == old(self)@ + Seq::new(num_flags as nat, |i: int| value),
    ;

    /// Finds the lowest true flag.
    fn find_a_true_flag(&self) -> (r: Option<usize>)
        requires
            self.wf(),
        ensures
            match r {
                Some(flag) => is_first_true(self@, flag as int),
                None => none_true(self@),
            },
    ;

    /// Walks the true flags in ascending order.
    fn true_flags<'a>(&'a self) -> (r: Self::TrueFlagsIter<'a>)
        requires
            self.wf(),
        ensures
            r.wf(),
            r.remaining() == true_from(self@, 0),
    ;
}

#[allow(dead_code)]
pub type BitFlags<T> = FlagsBasedPool<T, bit::BitVec>;

#[allow(dead_code)]
pub type BoolFlags<T> = FlagsBasedPool<T, bool::BoolVec>;

#[allow(dead_code)]
pub type HierarchicalFlags<T> = FlagsBasedPool<T, hierarchical::HierarchicalBitVec>;

/// The flags say which slots hold an item.
pub open spec fn marks<T>(flags: Seq<bool>, slots: Seq<Option<T>>) -> bool {
    &&& flags.len() == slots.len()
    &&& forall|id: int| 0 <= id < slots.len() ==> flags[id] == (slots[id] is Some)
}

/// The true flags are the ids of the slots that hold an item.
pub proof fn lemma_true_flags_are_live_ids<T>(flags: Seq<bool>, slots: Seq<Option<T>>, from: int)
    requires
        marks(flags, slots),
    ensures
        true_from(flags, from) == live_ids(slots, from),
    decreases slots.len() - from,
{
    if 0 <= from < slots.len() {
        lemma_true_flags_are_live_ids(flags, slots, from + 1);
    }
}

/// A pool that keeps two flags for each slot: one that says that the slot
/// holds an item, and one that says that it is free.
pub struct FlagsBasedPool<T: Clone, U: FlagVec> {
    alloc: U,
    free: U,
    items: Vec<Option<T>>,
    num_items: usize,
}

impl<T: Clone + 'static, U: FlagVec + 'static> FlagsBasedPool<T, U> {
    /// The flags that say which slots hold an item.
    pub closed spec fn alloc_flags(&self) -> Seq<bool> {
        self.alloc@
    }

    /// The flags that say which slots are free.
    pub closed spec fn free_flags(&self) -> Seq<bool> {
        self.free@
    }

    /// Every slot is marked either as holding an item or as free, never as
    /// both, and it is marked as holding an item exactly where it does.
    pub proof fn lemma_flags_are_complementary(&self)
        requires
            Pool::wf(self),
        ensures
            marks(self.alloc_flags(), self@),
            self.free_flags().len() == self@.len(),
            forall|id: int|
                0 <= id < self@.len() ==> self.alloc_flags()[id] != self.free_flags()[id],
    {
    }

    /// The number of slots.
    pub fn capacity(&self) -> (r: usize)
        requires
            Pool::wf(self),
        ensures
            r == self@.len(),
    {
        return self.alloc.num_flags()
    }

    /// Whether slot `id` is marked as holding an item.
    pub fn is_allocated(&self, id: usize) -> (r: bool)
        requires
            Pool::wf(self),
            id < self@.len(),
        ensures
            r == self.alloc_flags()[id as int],
            r == (self@[id as int] is Some),
    {
        return self.alloc.get_flag(id)
    }

    /// Whether slot `id` is marked as free.
    pub fn is_free(&self, id: usize) -> (r: bool)
        requires
            Pool::wf(self),
            id < self@.len(),
        ensures
            r == self.free_flags()[id as int],
            r == (self@[id as int] is None),
    {
        return self.free.get_flag(id)
    }

    fn expand_if_needed(&mut self)
        requires
            Pool::wf(old(self)),
            old(self).has_room(),
        ensures
            Pool::wf(final(self)),
            final(self)@ == grown(old(self)@, doubled_len(old(self)@)),
            live_count(final(self)@) == live_count(old(self)@),
            live_count(final(self)@) < final(self)@.len(),
    {
        if self.num_items < self.alloc.num_flags() {
            assert(self@ =~= grown(old(self)@, doubled_len(old(self)@)));
            return
        }
        proof {
            lemma_live_count_bound(self@, 0);
        }
        let new_num_items: usize = if self.num_items == 0 {
            1
        } else {
            self.num_items * GROWTH_FACTOR
        };
        let num_new_items: usize = new_num_items - self.num_items;
        self.alloc.add_flags(num_new_items, false);
        self.free.add_flags(num_new_items, true);
        self.items.resize(new_num_items, None);
        proof {
            assert(self@ =~= grown(old(self)@, doubled_len(old(self)@)));
            lemma_live_count_grown(old(self)@, doubled_len(old(self)@), 0);
        }
    }
}

pub const GROWTH_FACTOR: usize = 2;

impl<T: Clone + 'static, U: FlagVec + 'static> Pool<T> for FlagsBasedPool<T, U> {
    type Iter<'a> = Iter<'a, T, U>;

    closed spec fn wf(&self) -> bool {
        &&& self.alloc.wf()
        &&& self.free.wf()
        &&& marks(self.alloc@, self.items@)
        &&& self.free@.len() == self.items.len()
        &&& forall|id: int| 0 <= id < self.items.len() ==> self.free@[id] == !self.alloc@[id]
        &&& self.num_items == live_count(self.items@)
    }

    closed spec fn view(&self) -> Seq<Option<T>> {
        self.items@
    }

    open spec fn has_room(&self) -> bool {
        doubled_len(self@) <= usize::MAX
    }

    fn new() -> (r: Self) {
        return Self { alloc: FlagVec::new(), free: FlagVec::new(), items: Vec::new(), num_items: 0 }
    }

    open spec fn can_hold(num_items: usize) -> bool {
        true
    }

    fn with_capacity(num_items: usize) -> (r: Self)
        ensures
            r@.len() == num_items,
    {
        let r = Self {
            alloc: FlagVec::with_flags(num_items, false),
            free: FlagVec::with_flags(num_items, true),
            items: vec![None; num_items],
            num_items: 0,
        };
        proof {
            lemma_live_count_grown(Seq::<Option<T>>::empty(), num_items as int, 0);
            assert(r.items@ =~= grown(Seq::<Option<T>>::empty(), num_items as int));
        }
        return r
    }

    fn len(&self) -> (r: usize) {
        return self.num_items
    }

    fn get(&self, id: usize) -> (r: &T) {
        return self.items[id].as_ref().unwrap()
    }

    fn get_mut(&mut self, id: usize) -> (r: &mut T) {
        proof {
            assert forall|x: T| #[trigger] live_count(old(self).items@.update(id as int, Some(x)))
                == live_count(old(self).items@) by {
                lemma_live_count_update(old(self).items@, id as int, Some(x), 0);
            }
        }
        return self.items[id].as_mut().unwrap()
    }

    /// The id is the lowest free one, after the slots have doubled where none
    /// was free.
    fn allocate(&mut self, item: T) -> (id: usize)
        ensures
            final(self)@.len() == doubled_len(old(self)@),
            is_first_free(grown(old(self)@, doubled_len(old(self)@)), id as int),
    {
        self.expand_if_needed();
        proof {
            let free_slot = lemma_some_slot_is_free(self.items@, 0);
            assert(self.free@[free_slot]);
        }
        let ghost before = self.items@;
        let ghost free_before = self.free@;
        let id: usize = self.free.find_a_true_flag().unwrap();
        proof {
            assert forall|j: int| 0 <= j < id implies before[j] is Some by {
                assert(!free_before[j]);
            }
            assert(is_first_free(before, id as int));
        }
        self.alloc.set_flag(id, true);
        self.free.set_flag(id, false);
        self.items[id] = Some(item);
        proof {
            lemma_live_count_update(before, id as int, Some(item), 0);
        }
        self.num_items += 1;
        proof {
            lemma_live_count_bound(self.items@, 0);
        }
        return id
    }

    fn deallocate(&mut self, id: usize) {
        self.alloc.set_flag(id, false);
        self.free.set_flag(id, true);
        proof {
            lemma_live_count_update(self.items@, id as int, None, 0);
        }
        self.items[id] = None;
        self.num_items -= 1;
    }

    open spec fn iter_order(&self) -> Seq<usize> {
        live_ids(self@, 0)
    }

    /// The items come in ascending order of id.
    fn iter<'a>(&'a self) -> (r: Iter<'a, T, U>)
        ensures
            r.remaining() == live_from(self@, 0),
    {
        proof {
            lemma_true_flags_are_live_ids(self.alloc@, self.items@, 0);
            lemma_ascending_visits_each_item_once(self.items@);
        }
        return Iter::new(&self.items, &self.alloc)
    }
}

/// Walks the items of a `FlagsBasedPool` in ascending order of id.
pub struct Iter<'a, T: Clone, U: 'a + FlagVec> {
    items: &'a Vec<Option<T>>,
    true_flags_iter: <U as FlagVec>::TrueFlagsIter<'a>,
}

impl<'a, T: Clone, U: FlagVec> Iter<'a, T, U> {
    fn new(items: &'a Vec<Option<T>>, alloc: &'a U) -> (r: Self)
        requires
            alloc.wf(),
            all_live(true_from(alloc@, 0), items@),
        ensures
            r.wf(),
            r.remaining() == items_at(true_from(alloc@, 0), items@),
    {
        return Self { items, true_flags_iter: alloc.true_flags() }
    }
}

impl<'a, T: 'a + Clone, U: 'a + FlagVec> Traversal for Iter<'a, T, U> {
    type Item = &'a T;

    closed spec fn wf(&self) -> bool {
        &&& self.true_flags_iter.wf()
        &&& all_live(self.true_flags_iter.remaining(), self.items@)
    }

    closed spec fn remaining(&self) -> Seq<&'a T> {
        items_at(self.true_flags_iter.remaining(), self.items@)
    }

    fn next(&mut self) -> (r: Option<&'a T>) {
        let ghost ids = self.true_flags_iter.remaining();
        match self.true_flags_iter.next() {
            Some(id) => {
                proof {
                    assert(is_live(self.items@, ids[0] as int));
                    assert forall|k: int|
                        0 <= k < self.true_flags_iter.remaining().len() implies is_live(
                        self.items@,
                        #[trigger] self.true_flags_iter.remaining()[k] as int,
                    ) by {
                        assert(self.true_flags_iter.remaining()[k] == ids[k + 1]);
                    }
                    assert(old(self).remaining().drop_first() =~= self.remaining());
                }
                return Some(self.items[id].as_ref().unwrap())
            },
            None => return None,
        }
    }
}

} // verus!
