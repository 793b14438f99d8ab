use vstd::prelude::*;
use std::collections::HashMap;
use crate::{
    Pool, Traversal, live_count, live_from, live_ids, grown, lemma_live_count_update,
    lemma_live_count_grown, lemma_ascending_visits_each_item_once,
};

verus! {

broadcast use vstd::std_specs::hash::group_hash_axioms;

/// The slots that a map from ids to items stands for: slot `id` holds the
/// item that the map has under `id`.
pub open spec fn map_slots<T>(map: Map<usize, T>, num_ids: int) -> Seq<Option<T>> {
    Seq::new(
        num_ids as nat,
        |id: int|
            if map.contains_key(id as usize) {
                Some(map[id as usize])
            } else {
                None
            },
    )
}

/// `HashMap::get_mut`: where the map holds `id`, a reference to the item
/// stored under `id`, and what is written through it is what the map holds
/// under `id` afterwards, while no other entry changes; where the map does
/// not hold `id`, nothing, and the map stays as it is.
#[verifier::external_body]
fn entry_mut<'a, T>(map: &'a mut HashMap<usize, T>, id: usize) -> (r: Option<&'a mut T>)
    ensures
        r is Some == old(map)@.contains_key(id),
        r is Some ==> *r->0 == old(map)@[id] && final(map)@ == old(map)@.insert(
            id,
            *final(r->0),
        ),
        r is None ==> final(map)@ == old(map)@,
{
    map.get_mut(&id)
}

/// A pool that keeps its items in a map under ids that it counts up,
/// without reusing any: a plain model to hold the other pools against.
pub struct Reference<T> {
    map: HashMap<usize, T>,
    next_id: usize,
}

impl<T: 'static> Pool<T> for Reference<T> {
    type Iter<'a> = Iter<'a, T>;

    closed spec fn wf(&self) -> bool {
        &&& forall|id: usize| self.map@.contains_key(id) ==> id < self.next_id
        &&& self.map@.len() == live_count(map_slots(self.map@, self.next_id as int))
    }

    closed spec fn view(&self) -> Seq<Option<T>> {
        map_slots(self.map@, self.next_id as int)
    }

    /// One more id can be counted.
    open spec fn has_room(&self) -> bool {
        self@.len() < usize::MAX
    }

    fn new() -> (r: Self) {
        return Self { map: HashMap::new(), next_id: 0 }
    }

    open spec fn can_hold(num_items: usize) -> bool {
        true
    }

    fn with_capacity(num_items: usize) -> (r: Self)
        ensures
            r@.len() == 0,
    {
        return Self { map: HashMap::with_capacity(num_items), next_id: 0 }
    }

    fn len(&self) -> (r: usize) {
        return self.map.len()
    }

    fn get(&self, id: usize) -> (r: &T) {
        return self.map.get(&id).unwrap()
    }

    fn get_mut(&mut self, id: usize) -> (r: &mut T) {
        proof {
            let slots = old(self)@;
            let num_ids = old(self).next_id as int;
            assert(0 <= id < slots.len());
            assert forall|x: T|
                map_slots(#[trigger] old(self).map@.insert(id, x), num_ids) == slots.update(
                    id as int,
                    Some(x),
                ) && live_count(slots.update(id as int, Some(x))) == live_count(slots) && old(
                    self,
                ).map@.insert(id, x).len() == old(self).map@.len() by {
                assert(map_slots(old(self).map@.insert(id, x), num_ids) =~= slots.update(
                    id as int,
                    Some(x),
                ));
                lemma_live_count_update(slots, id as int, Some(x), 0);
                assert(old(self).map@.insert(id, x).dom() =~= old(self).map@.dom());
            }
        }
        return entry_mut(&mut self.map, id).unwrap()
    }

    /// The id is the number of ids handed out so far.
    fn allocate(&mut self, item: T) -> (id: usize)
        ensures
            id == old(self)@.len(),
            final(self)@.len() == old(self)@.len() + 1,
    {
        let id: usize = self.next_id;
        self.map.insert(id, item);
        self.next_id += 1;
        proof {
            let wider = grown(old(self)@, self.next_id as int);
            lemma_live_count_grown(old(self)@, self.next_id as int, 0);
            lemma_live_count_update(wider, id as int, Some(item), 0);
            assert(self@ =~= wider.update(id as int, Some(item)));
        }
        return id
    }

    fn deallocate(&mut self, id: usize) {
        self.map.remove(&id);
        proof {
            lemma_live_count_update(old(self)@, id as int, None, 0);
            assert(self@ =~= old(self)@.update(id as int, None));
        }
    }

    open spec fn iter_order(&self) -> Seq<usize> {
        live_ids(self@, 0)
    }

    /// The items come in ascending order of id.
    fn iter<'a>(&'a self) -> (r: Iter<'a, T>)
        ensures
            r.remaining() == live_from(self@, 0),
    {
        proof {
            lemma_ascending_visits_each_item_once(self@);
        }
        return Iter::new(&self.map, self.next_id)
    }
}

/// Walks the items of a `Reference` pool in ascending order of id.
pub struct Iter<'a, T> {
    map: &'a HashMap<usize, T>,
    next_id: usize,
    num_ids: usize,
}

impl<'a, T> Iter<'a, T> {
    fn new(map: &'a HashMap<usize, T>, num_ids: usize) -> (r: Self)
        ensures
            r.wf(),
            r.remaining() == live_from(map_slots(map@, num_ids as int), 0),
    {
        return Self { map, next_id: 0, num_ids }
    }
}

impl<'a, T> Traversal for Iter<'a, T> {
    type Item = &'a T;

    closed spec fn wf(&self) -> bool {
        self.next_id <= self.num_ids
    }

    closed spec fn remaining(&self) -> Seq<&'a T> {
        live_from(map_slots(self.map@, self.num_ids as int), self.next_id as int)
    }

    fn next(&mut self) -> (r: Option<&'a T>) {
        loop
            invariant
                self.map == old(self).map,
                self.num_ids == old(self).num_ids,
                self.wf(),
                self.remaining() == old(self).remaining(),
            decreases self.num_ids - self.next_id,
        {
            if self.next_id >= self.num_ids {
                return None
            }
            let id: usize = self.next_id;
            self.next_id += 1;
            match self.map.get(&id) {
                Some(item) => {
                    assert(old(self).remaining().drop_first() =~= self.remaining());
                    return Some(item)
                },
                None => {},
            }
        }
    }
}

} // verus!
