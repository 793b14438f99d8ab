use vstd::prelude::*;
use crate::{
    Pool, Traversal, live_count, live_from, live_ids, is_first_free, grown, doubled_len,
    lemma_live_count_update, lemma_live_count_bound, lemma_some_slot_is_free,
    lemma_live_count_grown, lemma_ascending_visits_each_item_once,
};

verus! {

pub const GROWTH_FACTOR: usize = 2;

/// A pool that finds a free slot by looking at the slots one by one.
pub struct Simple<T: Clone> {
    items: Vec<Option<T>>,
    num_items: usize,
}

impl<T: Clone + 'static> Pool<T> for Simple<T> {
    type Iter<'a> = Iter<'a, T>;

    closed spec fn wf(&self) -> bool {
        self.num_items == live_count(self.items@)
    }

    closed spec fn view(&self) -> Seq<Option<T>> {
        self.items@
    }

    open spec fn has_room(&self) -> bool {
        doubled_len(self@) <= usize::MAX
    }

    fn new() -> (r: Self) {
        return Self { items: Vec::new(), num_items: 0 }
    }

    open spec fn can_hold(num_items: usize) -> bool {
        true
    }

    fn with_capacity(num_items: usize) -> (r: Self)
        ensures
            r@.len() == num_items,
    {
        let r = Self { items: vec![None; num_items], num_items: 0 };
        proof {
            lemma_live_count_grown(Seq::<Option<T>>::empty(), num_items as int, 0);
            assert(r.items@ =~= grown(Seq::<Option<T>>::empty(), num_items as int));
        }
        return r
    }

    fn len(&self) -> (r: usize) {
        return self.num_items
    }

    fn get(&self, id: usize) -> (r: &T) {
        return self.items[id].as_ref().unwrap()
    }

    fn get_mut(&mut self, id: usize) -> (r: &mut T) {
        proof {
            assert forall|x: T| #[trigger] live_count(old(self).items@.update(id as int, Some(x)))
                == live_count(old(self).items@) by {
                lemma_live_count_update(old(self).items@, id as int, Some(x), 0);
            }
        }
        return self.items[id].as_mut().unwrap()
    }

    /// The id is the lowest free one, after the slots have doubled where none
    /// was free.
    fn allocate(&mut self, item: T) -> (id: usize)
        ensures
            final(self)@.len() == doubled_len(old(self)@),
            is_first_free(grown(old(self)@, doubled_len(old(self)@)), id as int),
    {
        proof {
            lemma_live_count_bound(self.items@, 0);
        }
        if self.num_items == self.items.len() {
            let new_num_items: usize = if self.num_items == 0 {
                1
            } else {
                self.num_items * GROWTH_FACTOR
            };
            self.items.resize(new_num_items, None);
        }
        let ghost before = self.items@;
        proof {
            assert(before =~= grown(old(self)@, doubled_len(old(self)@)));
            lemma_live_count_grown(old(self)@, doubled_len(old(self)@), 0);
            lemma_some_slot_is_free(before, 0);
        }
        let mut id: usize = 0;
        while self.items[id].is_some()
            invariant
                self.items@ == before,
                before.len() == self.items.len(),
                id < before.len(),
                forall|j: int| 0 <= j < id ==> before[j] is Some,
                exists|j: int| id <= j < before.len() && before[j] is None,
            decreases before.len() - id,
        {
            id += 1;
        }
        self.items[id] = Some(item);
        proof {
            lemma_live_count_update(before, id as int, Some(item), 0);
            lemma_live_count_bound(self.items@, 0);
        }
        self.num_items += 1;
        return id
    }

    fn deallocate(&mut self, id: usize) {
        proof {
            lemma_live_count_update(self.items@, id as int, None, 0);
        }
        self.items[id] = None;
        self.num_items -= 1;
    }

    open spec fn iter_order(&self) -> Seq<usize> {
        live_ids(self@, 0)
    }

    /// The items come in ascending order of id.
    fn iter<'a>(&'a self) -> (r: Iter<'a, T>)
        ensures
            r.remaining() == live_from(self@, 0),
    {
        proof {
            assert(self.items@.len() == self.items.len());
            lemma_ascending_visits_each_item_once(self.items@);
        }
        return Iter::new(&self.items)
    }
}

/// Walks the items of a `Simple` pool in ascending order of id.
pub struct Iter<'a, T> {
    items: &'a Vec<Option<T>>,
    next_id: usize,
}

impl<'a, T> Iter<'a, T> {
    fn new(items: &'a Vec<Option<T>>) -> (r: Self)
        ensures
            r.wf(),
            r.remaining() == live_from(items@, 0),
    {
        return Self { items, next_id: 0 }
    }
}

impl<'a, T> Traversal for Iter<'a, T> {
    type Item = &'a T;

    closed spec fn wf(&self) -> bool {
        self.next_id <= self.items.len()
    }

    closed spec fn remaining(&self) -> Seq<&'a T> {
        live_from(self.items@, self.next_id as int)
    }

    fn next(&mut self) -> (r: Option<&'a T>) {
        loop
            invariant
                self.items == old(self).items,
                self.wf(),
                self.remaining() == old(self).remaining(),
            decreases self.items.len() - self.next_id,
        {
            if self.next_id >= self.items.len() {
                return None
            }
            let id: usize = self.next_id;
            self.next_id += 1;
            match &self.items[id] {
                Some(item) => {
                    assert(old(self).remaining().drop_first() =~= self.remaining());
                    return Some(item)
                },
                None => {},
            }
        }
    }
}

} // verus!
