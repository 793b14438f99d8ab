use vstd::prelude::*;
use crate::{
    Pool, Traversal, live_count, items_at, is_live, grown, visits_each_item_once,
    lemma_live_count_update, lemma_live_count_bound, lemma_live_count_full,
    lemma_live_count_grown, lemma_live_count_leaves_out,
};
use crate::flag_block::{
    Block, FLAGS_PER_BLOCK, EMPTY_BLOCK, FULL_BLOCK, flag_at, count_ones, blocks_mark,
    is_first_free_in_block, ids_in_block, ids_in_blocks, listed, lemma_set_flag,
    lemma_clear_flag, lemma_empty_and_full, lemma_ones_after_set, lemma_ones_after_clear,
    lemma_lowest_clear_flag, lemma_lowest_set_flag, lemma_ids_in_blocks, holds,
    lemma_ids_in_block_skip, doubled_blocks_len, blocks_down, lists_blocks_unlike,
    lemma_block_joins, lemma_block_leaves, lemma_block_stays,
};

verus! {

pub const GROWTH_FACTOR: usize = 2;

/// A pool that keeps its slots in blocks of eight, with a stack of the
/// blocks that have a free slot and a list of the blocks that hold an item.
pub struct Stacks<T: Clone> {
    items: Vec<Option<T>>,
    num_items: usize,
    flags: Vec<Block>,
    open_blocks: Vec<usize>,
    alloc_blocks: Vec<usize>,
}

impl<T: Clone + 'static> Stacks<T> {
    /// The blocks that have a free slot; allocations fill the last one.
    pub closed spec fn open_blocks(&self) -> Seq<usize> {
        self.open_blocks@
    }

    /// The blocks that hold an item, in the order in which `iter` visits
    /// them.
    pub closed spec fn alloc_blocks(&self) -> Seq<usize> {
        self.alloc_blocks@
    }

    /// The block that the next allocation fills: the last of the blocks with
    /// a free slot, or the first new block where there is none.
    pub open spec fn block_to_fill(&self) -> int {
        if self.open_blocks().len() > 0 {
            self.open_blocks().last() as int
        } else {
            self@.len() as int / 8
        }
    }

    /// No block has a free slot exactly when every slot holds an item.
    proof fn lemma_full_when_no_block_is_open(&self)
        requires
            Pool::wf(self),
        ensures
            live_count(self@) <= self@.len(),
            (self.open_blocks@.len() == 0) == (live_count(self@) == self@.len()),
    {
        lemma_live_count_bound(self@, 0);
        if self.open_blocks@.len() == 0 {
            assert forall|id: int| 0 <= id < self@.len() implies self@[id] is Some by {
                let b = id / 8;
                if self.flags[b] != FULL_BLOCK {
                    assert(self.open_blocks@.contains(b as usize));
                }
                lemma_empty_and_full(self.flags[b]);
                assert(flag_at(self.flags[b], (id % 8) as u8));
            }
            lemma_live_count_full(self@, 0);
        } else {
            let b = self.open_blocks@[0] as int;
            lemma_empty_and_full(self.flags[b]);
            let j = choose|j: u8| j < 8 && !#[trigger] flag_at(self.flags[b], j);
            lemma_live_count_leaves_out(self@, 8 * b + j, 0);
        }
    }

    /// The blocks that hold an item are those that `iter` walks.
    proof fn lemma_alloc_blocks_hold_the_items(&self)
        requires
            Pool::wf(self),
        ensures
            visits_each_item_once(ids_in_blocks(self@, self.alloc_blocks(), 0), self@),
    {
        let ids = ids_in_blocks(self@, self.alloc_blocks@, 0);
        assert(self.items@.len() == self.items.len());
        lemma_ids_in_blocks(self@, self.alloc_blocks@, 0);
        assert forall|id: int| is_live(self@, id) implies ids.contains(id as usize) by {
            let b = id / 8;
            assert(flag_at(self.flags[b], (id % 8) as u8));
            lemma_empty_and_full(self.flags[b]);
            assert(self.alloc_blocks@.contains(b as usize));
            let m = choose|m: int|
                0 <= m < self.alloc_blocks@.len() && self.alloc_blocks@[m] == b as usize;
            assert(listed(self.alloc_blocks@, 0, b));
        }
    }

    fn expand_if_needed(&mut self)
        requires
            Pool::wf(old(self)),
            old(self).has_room(),
        ensures
            Pool::wf(final(self)),
            final(self)@ == grown(old(self)@, doubled_blocks_len(old(self)@)),
            live_count(final(self)@) == live_count(old(self)@),
            final(self).open_blocks().len() > 0,
            final(self).open_blocks() == (if old(self).open_blocks().len() > 0 {
                old(self).open_blocks()
            } else {
                blocks_down(old(self)@.len() as int / 8, doubled_blocks_len(old(self)@) / 8)
            }),
            final(self).alloc_blocks() == old(self).alloc_blocks(),
    {
        proof {
            self.lemma_full_when_no_block_is_open();
        }
        if !self.open_blocks.is_empty() {
            assert(self@ =~= grown(old(self)@, doubled_blocks_len(old(self)@)));
            return
        }
        let old_num_blocks: usize = self.flags.len();
        let new_num_blocks: usize;
        if self.num_items == 0 {
            new_num_blocks = 1;
        } else {
            new_num_blocks = old_num_blocks * GROWTH_FACTOR;
        }
        let new_num_items: usize = new_num_blocks * FLAGS_PER_BLOCK;

        self.items.resize(new_num_items, None);
        self.flags.resize(new_num_blocks, 0);
        let mut block: usize = new_num_blocks;
        while block > old_num_blocks
            invariant
                old_num_blocks <= block <= new_num_blocks,
                self.flags@.len() == new_num_blocks,
                self.open_blocks@ == blocks_down(block as int, new_num_blocks as int),
                self.alloc_blocks == old(self).alloc_blocks,
                self.num_items == old(self).num_items,
                self.items@ == grown(old(self)@, new_num_items as int),
                forall|b: int| 0 <= b < old_num_blocks ==> self.flags[b] == old(self).flags[b],
                forall|b: int| old_num_blocks <= b < new_num_blocks ==> self.flags[b] == 0,
            decreases block,
        {
            block -= 1;
            self.open_blocks.push(block);
            assert(self.open_blocks@ =~= blocks_down(block as int, new_num_blocks as int));
        }
        proof {
            lemma_live_count_grown(old(self)@, new_num_items as int, 0);
            assert forall|b: int, j: u8|
                0 <= b < self.flags@.len() && j < 8 implies #[trigger] flag_at(self.flags@[b], j)
                == is_live(self.items@, 8 * b + j) by {
                if b < old_num_blocks {
                    assert(flag_at(old(self).flags@[b], j) == is_live(old(self).items@, 8 * b + j));
                } else {
                    lemma_empty_and_full(self.flags@[b]);
                }
            }
            assert forall|b: int|
                0 <= b < self.flags@.len() && (#[trigger] self.flags@[b])
                    != FULL_BLOCK implies self.open_blocks@.contains(b as usize) by {
                if b < old_num_blocks {
                    assert(old(self).flags@[b] != FULL_BLOCK);
                    assert(old(self).open_blocks@.contains(b as usize));
                } else {
                    assert(self.open_blocks@[new_num_blocks - 1 - b] == b as usize);
                }
            }
            assert forall|b: int|
                0 <= b < self.flags@.len() && (#[trigger] self.flags@[b])
                    != EMPTY_BLOCK implies self.alloc_blocks@.contains(b as usize) by {
                assert(old(self).flags@[b] != EMPTY_BLOCK);
            }
        }
    }
}

impl<T: Clone + 'static> Pool<T> for Stacks<T> {
    type Iter<'a> = Iter<'a, T>;

    closed spec fn wf(&self) -> bool {
        &&& blocks_mark(self.flags@, self.items@)
        &&& self.num_items == live_count(self.items@)
        &&& lists_blocks_unlike(self.open_blocks@, self.flags@, FULL_BLOCK)
        &&& lists_blocks_unlike(self.alloc_blocks@, self.flags@, EMPTY_BLOCK)
    }

    closed spec fn view(&self) -> Seq<Option<T>> {
        self.items@
    }

    open spec fn has_room(&self) -> bool {
        doubled_blocks_len(self@) <= usize::MAX
    }

    open spec fn can_hold(num_items: usize) -> bool {
        8 * ((num_items + 7) / 8) <= usize::MAX
    }

    fn new() -> (r: Self)
        ensures
            r.open_blocks().len() == 0,
            r.alloc_blocks().len() == 0,
    {
        return Self {
            items: Vec::new(),
            num_items: 0,
            flags: Vec::new(),
            open_blocks: Vec::new(),
            alloc_blocks: Vec::new(),
        }
    }

    /// The slots come in whole blocks: as many blocks as `num_items` slots
    /// take up. Allocations fill the blocks in ascending order.
    fn with_capacity(num_items: usize) -> (r: Self)
        ensures
            r@.len() == 8 * ((num_items + 7) / 8),
            r.open_blocks() == blocks_down(0, (num_items + 7) / 8),
            r.alloc_blocks().len() == 0,
    {
        let num_blocks: usize;
        if num_items == 0 {
            num_blocks = 0;
        } else {
            num_blocks = ((num_items - 1) / FLAGS_PER_BLOCK) + 1;
        }
        let items: Vec<Option<T>> = vec![None; num_blocks * FLAGS_PER_BLOCK];
        let num_items: usize = 0;

        let flags: Vec<Block> = vec![0; num_blocks];
        let mut open_blocks: Vec<usize> = Vec::new();
        let mut block: usize = num_blocks;
        while block > 0
            invariant
                block <= num_blocks,
                open_blocks@ == blocks_down(block as int, num_blocks as int),
            decreases block,
        {
            block -= 1;
            open_blocks.push(block);
            assert(open_blocks@ =~= blocks_down(block as int, num_blocks as int));
        }
        let alloc_blocks: Vec<usize> = Vec::new();

        let r = Self { items, num_items, flags, open_blocks, alloc_blocks };
        proof {
            lemma_live_count_grown(Seq::<Option<T>>::empty(), r.items@.len() as int, 0);
            assert(r.items@ =~= grown(Seq::<Option<T>>::empty(), r.items@.len() as int));
            assert forall|b: int, j: u8|
                0 <= b < r.flags@.len() && j < 8 implies #[trigger] flag_at(r.flags@[b], j)
                == is_live(r.items@, 8 * b + j) by {
                lemma_empty_and_full(r.flags@[b]);
            }
            assert forall|b: int|
                0 <= b < r.flags@.len() && (#[trigger] r.flags@[b])
                    != FULL_BLOCK implies r.open_blocks@.contains(b as usize) by {
                assert(r.open_blocks@[num_blocks - 1 - b] == b as usize);
            }
        }
        return r
    }

    fn len(&self) -> (r: usize) {
        return self.num_items
    }

    fn get(&self, id: usize) -> (r: &T) {
        return self.items[id].as_ref().unwrap()
    }

    fn get_mut(&mut self, id: usize) -> (r: &mut T)
        ensures
            final(self).open_blocks() == old(self).open_blocks(),
            final(self).alloc_blocks() == old(self).alloc_blocks(),
    {
        proof {
            assert forall|x: T| #[trigger] live_count(old(self).items@.update(id as int, Some(x)))
                == live_count(old(self).items@) && blocks_mark(
                old(self).flags@,
                old(self).items@.update(id as int, Some(x)),
            ) by {
                lemma_live_count_update(old(self).items@, id as int, Some(x), 0);
                let after = old(self).items@.update(id as int, Some(x));
                assert forall|b: int, j: u8|
                    0 <= b < old(self).flags@.len() && j < 8 implies #[trigger] flag_at(
                    old(self).flags@[b],
                    j,
                ) == is_live(after, 8 * b + j) by {
                    assert(flag_at(old(self).flags@[b], j) == is_live(
                        old(self).items@,
                        8 * b + j,
                    ));
                }
            }
        }
        return self.items[id].as_mut().unwrap()
    }

    /// The id is the lowest free one of the block to fill, after the slots
    /// have doubled where none was free.
    fn allocate(&mut self, item: T) -> (id: usize)
        ensures
            final(self)@.len() == doubled_blocks_len(old(self)@),
            is_first_free_in_block(
                grown(old(self)@, doubled_blocks_len(old(self)@)),
                old(self).block_to_fill(),
                id as int,
            ),
    {
        self.expand_if_needed();
        let ghost before = *self;
        let open_block: usize = self.open_blocks[self.open_blocks.len() - 1];
        let flags_before: Block = self.flags[open_block];
        proof {
            lemma_lowest_clear_flag(flags_before);
            assert(self.items@.len() == self.items.len());
        }
        let local_bit: usize = flags_before.trailing_ones() as usize;
        self.flags[open_block] = flags_before | (1u8 << (local_bit as u8));
        proof {
            lemma_ones_after_set(flags_before, local_bit as u8);
            lemma_empty_and_full(flags_before);
            lemma_empty_and_full(self.flags[open_block as int]);
        }

        let block_is_now_full: bool = self.flags[open_block] == FULL_BLOCK;
        if block_is_now_full {
            self.open_blocks.pop().unwrap();
            proof {
                assert(self.open_blocks@ =~= before.open_blocks@.remove(
                    before.open_blocks@.len() - 1,
                ));
                lemma_block_leaves(
                    before.open_blocks@,
                    before.flags@,
                    self.flags@,
                    before.open_blocks@.len() - 1,
                    FULL_BLOCK,
                );
            }
        } else {
            proof {
                lemma_block_stays(
                    before.open_blocks@,
                    before.flags@,
                    self.flags@,
                    open_block,
                    FULL_BLOCK,
                );
            }
        }

        let block_now_has_one_item_allocated: bool = count_ones(self.flags[open_block]) == 1;
        if block_now_has_one_item_allocated {
            self.alloc_blocks.push(open_block);
            proof {
                lemma_block_joins(
                    before.alloc_blocks@,
                    before.flags@,
                    self.flags@,
                    open_block,
                    EMPTY_BLOCK,
                );
            }
        } else {
            proof {
                lemma_block_stays(
                    before.alloc_blocks@,
                    before.flags@,
                    self.flags@,
                    open_block,
                    EMPTY_BLOCK,
                );
            }
        }

        let global_bit: usize = open_block * FLAGS_PER_BLOCK + local_bit;
        proof {
            assert(!flag_at(flags_before, local_bit as u8));
            assert(!is_live(before.items@, 8 * open_block + local_bit as u8));
            assert forall|j: int| 8 * open_block <= j < global_bit implies before.items@[j] is Some by {
                assert(flag_at(flags_before, (j - 8 * open_block) as u8));
                assert(is_live(before.items@, 8 * open_block + (j - 8 * open_block) as u8));
            }
        }
        self.items[global_bit] = Some(item);
        proof {
            lemma_live_count_update(before.items@, global_bit as int, Some(item), 0);
            lemma_live_count_bound(self.items@, 0);
            assert forall|b: int, j: u8|
                0 <= b < self.flags@.len() && j < 8 implies #[trigger] flag_at(self.flags@[b], j)
                == is_live(self.items@, 8 * b + j) by {
                assert(flag_at(before.flags@[b], j) == is_live(before.items@, 8 * b + j));
                if b == open_block {
                    lemma_set_flag(flags_before, local_bit as u8, j);
                }
            }
        }
        self.num_items += 1;
        return global_bit
    }

    fn deallocate(&mut self, id: usize) {
        let block: usize = id / FLAGS_PER_BLOCK;
        let local_bit: usize = id % FLAGS_PER_BLOCK;
        let flags_before: Block = self.flags[block];
        proof {
            assert(flag_at(flags_before, local_bit as u8) == is_live(
                self.items@,
                8 * block + local_bit as u8,
            ));
            lemma_ones_after_clear(flags_before, local_bit as u8);
            lemma_empty_and_full(flags_before);
            assert(self.flags@.len() == self.flags.len());
            assert(self.flags@[block as int] != EMPTY_BLOCK);
            assert(self.alloc_blocks@.contains(block));
        }
        self.flags[block] = flags_before & !(1u8 << (local_bit as u8));
        proof {
            lemma_empty_and_full(self.flags[block as int]);
        }

        if self.flags[block] == EMPTY_BLOCK {
            proof {
                let m = choose|m: int|
                    0 <= m < self.alloc_blocks@.len() && self.alloc_blocks@[m] == block;
                assert(self.alloc_blocks@[m] == block);
            }
            let mut i: usize = 0;
            while self.alloc_blocks[i] != block
                invariant
                    self.alloc_blocks == old(self).alloc_blocks,
                    i < self.alloc_blocks.len(),
                    exists|m: int|
                        i <= m < self.alloc_blocks@.len() && #[trigger] self.alloc_blocks@[m]
                            == block,
                decreases self.alloc_blocks.len() - i,
            {
                i += 1;
            }
            self.alloc_blocks.remove(i);
            proof {
                lemma_block_leaves(
                    old(self).alloc_blocks@,
                    old(self).flags@,
                    self.flags@,
                    i as int,
                    EMPTY_BLOCK,
                );
            }
        } else {
            proof {
                lemma_block_stays(
                    old(self).alloc_blocks@,
                    old(self).flags@,
                    self.flags@,
                    block,
                    EMPTY_BLOCK,
                );
            }
        }

        if count_ones(self.flags[block]) as usize == FLAGS_PER_BLOCK - 1 {
            self.open_blocks.push(block);
            proof {
                lemma_block_joins(
                    old(self).open_blocks@,
                    old(self).flags@,
                    self.flags@,
                    block,
                    FULL_BLOCK,
                );
            }
        } else {
            proof {
                lemma_block_stays(
                    old(self).open_blocks@,
                    old(self).flags@,
                    self.flags@,
                    block,
                    FULL_BLOCK,
                );
            }
        }

        let global_bit: usize = block * FLAGS_PER_BLOCK + local_bit;
        self.items[global_bit] = None;
        proof {
            lemma_live_count_update(old(self).items@, id as int, None, 0);
            assert forall|b: int, j: u8|
                0 <= b < self.flags@.len() && j < 8 implies #[trigger] flag_at(self.flags@[b], j)
                == is_live(self.items@, 8 * b + j) by {
                assert(flag_at(old(self).flags@[b], j) == is_live(old(self).items@, 8 * b + j));
                if b == block {
                    lemma_clear_flag(flags_before, local_bit as u8, j);
                }
            }
        }
        self.num_items -= 1;
    }

    /// The blocks that hold an item come in the order in which they got
    /// their first item, and the items of a block in ascending order of id.
    open spec fn iter_order(&self) -> Seq<usize> {
        ids_in_blocks(self@, self.alloc_blocks(), 0)
    }

    fn iter<'a>(&'a self) -> (r: Iter<'a, T>) {
        proof {
            self.lemma_alloc_blocks_hold_the_items();
        }
        return Iter::new(&self.items, &self.flags, &self.alloc_blocks)
    }
}

/// Walks the items of a `Stacks` pool block by block.
pub struct Iter<'a, T: Clone> {
    items: &'a Vec<Option<T>>,
    flags: &'a Vec<Block>,
    block: Block,
    offset: usize,
    alloc_blocks: &'a Vec<usize>,
    next_alloc_block: usize,
    open: Ghost<(int, int)>,
}

impl<'a, T: Clone> Iter<'a, T> {
    /// The ids of the items that are still to come.
    pub closed spec fn remaining_ids(&self) -> Seq<usize> {
        ids_in_block(self.items@, self.open@.0, self.open@.1) + ids_in_blocks(
            self.items@,
            self.alloc_blocks@,
            self.next_alloc_block as int,
        )
    }

    fn new(items: &'a Vec<Option<T>>, flags: &'a Vec<Block>, alloc_blocks: &'a Vec<usize>) -> (r:
        Self)
        requires
            blocks_mark(flags@, items@),
            lists_blocks_unlike(alloc_blocks@, flags@, EMPTY_BLOCK),
        ensures
            r.wf(),
            r.remaining() == items_at(ids_in_blocks(items@, alloc_blocks@, 0), items@),
    {
        let r = Self {
            items,
            flags,
            block: 0,
            offset: 0,
            alloc_blocks,
            next_alloc_block: 0,
            open: Ghost((0, 8)),
        };
        proof {
            lemma_empty_and_full(0);
            assert(r.remaining_ids() =~= ids_in_blocks(items@, alloc_blocks@, 0));
        }
        return r
    }
}

impl<'a, T: Clone> Traversal for Iter<'a, T> {
    type Item = &'a T;

    closed spec fn wf(&self) -> bool {
        &&& blocks_mark(self.flags@, self.items@)
        &&& lists_blocks_unlike(self.alloc_blocks@, self.flags@, EMPTY_BLOCK)
        &&& self.next_alloc_block <= self.alloc_blocks@.len()
        &&& 0 <= self.open@.0
        &&& 0 <= self.open@.1 <= 8
        &&& self.offset == 8 * self.open@.0
        &&& forall|j: u8|
            j < 8 ==> #[trigger] flag_at(self.block, j) == (j >= self.open@.1 && is_live(
                self.items@,
                8 * self.open@.0 + j,
            ))
    }

    closed spec fn remaining(&self) -> Seq<&'a T> {
        items_at(self.remaining_ids(), self.items@)
    }

    fn next(&mut self) -> (r: Option<&'a T>) {
        proof {
            lemma_empty_and_full(self.block);
            assert(self.items@.len() == self.items.len());
        }
        if self.block == EMPTY_BLOCK {
            proof {
                assert forall|j: int| self.open@.1 <= j < 8 implies !#[trigger] holds(
                    self.items@,
                    self.open@.0,
                    j,
                ) by {
                    assert(!flag_at(self.block, j as u8));
                }
                lemma_ids_in_block_skip(self.items@, self.open@.0, self.open@.1, 8);
            }
            if self.next_alloc_block < self.alloc_blocks.len() {
                let block: usize = self.alloc_blocks[self.next_alloc_block];
                self.next_alloc_block += 1;
                self.block = self.flags[block];
                self.offset = block * FLAGS_PER_BLOCK;
                proof {
                    self.open@ = (block as int, 0);
                    assert(self.remaining_ids() =~= old(self).remaining_ids());
                }
            } else {
                assert(old(self).remaining_ids() =~= Seq::<usize>::empty());
                return None
            }
        }
        proof {
            lemma_lowest_set_flag(self.block);
        }
        let local_bit: usize = self.block.trailing_zeros() as usize;
        let ghost block_before = self.block;
        let ghost open_before = self.open@;
        self.block = self.block & !(1u8 << (local_bit as u8));
        let global_bit: usize = self.offset + local_bit;
        proof {
            assert(flag_at(block_before, local_bit as u8));
            self.open@ = (open_before.0, local_bit + 1);
            assert forall|j: u8| j < 8 implies #[trigger] flag_at(self.block, j) == (j
                >= self.open@.1 && is_live(self.items@, 8 * self.open@.0 + j)) by {
                lemma_clear_flag(block_before, local_bit as u8, j);
                assert(flag_at(block_before, j) == (j >= open_before.1 && is_live(
                    self.items@,
                    8 * open_before.0 + j,
                )));
            }
            assert forall|j: int| open_before.1 <= j < local_bit implies !#[trigger] holds(
                self.items@,
                open_before.0,
                j,
            ) by {
                assert(!flag_at(block_before, j as u8));
            }
            lemma_ids_in_block_skip(self.items@, open_before.0, open_before.1, local_bit as int);
            assert(old(self).remaining_ids().drop_first() =~= self.remaining_ids());
            assert(old(self).remaining_ids()[0] == global_bit);
            assert(old(self).remaining().drop_first() =~= self.remaining());
        }
        return Some(self.items[global_bit].as_ref().unwrap())
    }
}

} // verus!
