use vstd::prelude::*;
use crate::{
    Pool, Traversal, live_count, items_at, is_live, grown, visits_each_item_once,
    lemma_live_count_update, lemma_live_count_bound, lemma_live_count_full,
    lemma_live_count_grown, lemma_live_count_leaves_out,
};
use crate::flag_block::{
    Block, FLAGS_PER_BLOCK, EMPTY_BLOCK, FULL_BLOCK, flag_at, count_ones, blocks_mark,
    is_first_free_in_block, ids_in_block, ids_in_blocks, listed, lemma_set_flag,
    lemma_clear_flag, lemma_empty_and_full, lemma_ones_after_set, lemma_ones_after_clear,
    lemma_lowest_clear_flag, lemma_lowest_set_flag, lemma_ids_in_blocks, holds,
    lemma_ids_in_block_skip, doubled_blocks_len, blocks_down, lists_blocks_unlike,
    lemma_block_joins, lemma_block_leaves, lemma_block_stays,
};

verus! {

pub type FlagBlock = Block;

pub const GROWTH_FACTOR: usize = 2;

/// An entry of the list of the blocks that hold an item. The links are the
/// numbers of the blocks before and after it in the list.
#[derive(Clone, Copy)]
pub struct Node {
    pub block: usize,
    pub prev: Option<usize>,
    pub next: Option<usize>,
}

/// The block at position `k` of `order`, where there is one.
pub open spec fn block_at(order: Seq<usize>, k: int) -> Option<usize> {
    if 0 <= k < order.len() {
        Some(order[k])
    } else {
        None
    }
}

/// The node that block `order[k]` has in a list that links the blocks in
/// the order of `order`.
pub open spec fn node_for(order: Seq<usize>, k: int) -> Node {
    Node { block: order[k], prev: block_at(order, k - 1), next: block_at(order, k + 1) }
}

/// Block `order[k]` has the node that links it to its neighbours in `order`.
pub open spec fn linked(nodes: Seq<Option<Node>>, order: Seq<usize>, k: int) -> bool {
    order[k] < nodes.len() && nodes[order[k] as int] == Some(node_for(order, k))
}

/// The nodes link the blocks that hold an item, each of them once, in the
/// order of `order`, and the other blocks have no node.
pub open spec fn is_block_list(nodes: Seq<Option<Node>>, order: Seq<usize>, flags: Seq<Block>) -> bool {
    &&& nodes.len() == flags.len()
    &&& lists_blocks_unlike(order, flags, EMPTY_BLOCK)
    &&& forall|k: int| 0 <= k < order.len() ==> #[trigger] linked(nodes, order, k)
    &&& forall|b: int|
        0 <= b < nodes.len() && flags[b] == EMPTY_BLOCK ==> (#[trigger] nodes[b]) is None
}

/// The nodes after block `block` has been put in front of the list.
pub open spec fn pushed_front(nodes: Seq<Option<Node>>, order: Seq<usize>, block: usize) -> Seq<
    Option<Node>,
> {
    let with_node = nodes.update(
        block as int,
        Some(Node { block, prev: None, next: block_at(order, 0) }),
    );
    if order.len() > 0 {
        with_node.update(
            order[0] as int,
            Some(Node { block: order[0], prev: Some(block), next: block_at(order, 1) }),
        )
    } else {
        with_node
    }
}

/// The nodes after the block at position `k` has been taken out of the list.
pub open spec fn unlinked(nodes: Seq<Option<Node>>, order: Seq<usize>, k: int) -> Seq<
    Option<Node>,
> {
    let without_prev = if k > 0 {
        nodes.update(
            order[k - 1] as int,
            Some(
                Node {
                    block: order[k - 1],
                    prev: block_at(order, k - 2),
                    next: block_at(order, k + 1),
                },
            ),
        )
    } else {
        nodes
    };
    let without_next = if k + 1 < order.len() {
        without_prev.update(
            order[k + 1] as int,
            Some(
                Node {
                    block: order[k + 1],
                    prev: block_at(order, k - 1),
                    next: block_at(order, k + 2),
                },
            ),
        )
    } else {
        without_prev
    };
    without_next.update(order[k] as int, None)
}

/// A block that gets its first item goes in front of the list.
pub proof fn lemma_push_front(
    nodes: Seq<Option<Node>>,
    order: Seq<usize>,
    before: Seq<Block>,
    after: Seq<Block>,
    block: usize,
)
    requires
        is_block_list(nodes, order, before),
        block < before.len() <= usize::MAX,
        after == before.update(block as int, after[block as int]),
        before[block as int] == EMPTY_BLOCK,
        after[block as int] != EMPTY_BLOCK,
    ensures
        is_block_list(pushed_front(nodes, order, block), seq![block] + order, after),
{
    let longer = seq![block] + order;
    let linked_up = pushed_front(nodes, order, block);
    assert forall|m: int| 0 <= m < order.len() implies order[m] != block by {}
    assert forall|m: int| 0 <= m < longer.len() implies (#[trigger] longer[m]) < after.len()
        && after[longer[m] as int] != EMPTY_BLOCK by {
        if m > 0 {
            assert(longer[m] == order[m - 1]);
        }
    }
    assert forall|b: int|
        0 <= b < after.len() && (#[trigger] after[b]) != EMPTY_BLOCK implies longer.contains(
        b as usize,
    ) by {
        if b == block {
            assert(longer[0] == block);
        } else {
            assert(before[b] != EMPTY_BLOCK);
            let m = choose|m: int| 0 <= m < order.len() && order[m] == b as usize;
            assert(longer[m + 1] == b as usize);
        }
    }
    assert forall|k: int| 0 <= k < longer.len() implies #[trigger] linked(linked_up, longer, k) by {
        if k > 0 {
            assert(linked(nodes, order, k - 1));
            assert(longer[k] == order[k - 1]);
            if k > 1 {
                assert(order[k - 1] != order[0]);
            }
        }
    }
    assert forall|b: int|
        0 <= b < linked_up.len() && after[b] == EMPTY_BLOCK implies (#[trigger] linked_up[b]) is None by {
        assert(nodes[b] is None);
    }
}

/// A block that loses its last item leaves the list, and its neighbours are
/// linked to each other.
pub proof fn lemma_unlink(
    nodes: Seq<Option<Node>>,
    order: Seq<usize>,
    before: Seq<Block>,
    after: Seq<Block>,
    k: int,
)
    requires
        is_block_list(nodes, order, before),
        0 <= k < order.len(),
        before.len() <= usize::MAX,
        after == before.update(order[k] as int, EMPTY_BLOCK),
    ensures
        is_block_list(unlinked(nodes, order, k), order.remove(k), after),
{
    let shorter = order.remove(k);
    let linked_up = unlinked(nodes, order, k);
    lemma_block_leaves(order, before, after, k, EMPTY_BLOCK);
    assert forall|m: int| 0 <= m < shorter.len() implies #[trigger] linked(
        linked_up,
        shorter,
        m,
    ) by {
        let from = if m < k {
            m
        } else {
            m + 1
        };
        assert(linked(nodes, order, from));
        assert(shorter[m] == order[from]);
        assert(order[from] != order[k]);
        if k > 0 {
            assert(from != k - 1 ==> order[from] != order[k - 1]);
        }
        if k + 1 < order.len() {
            assert(from != k + 1 ==> order[from] != order[k + 1]);
        }
        if k > 0 && k + 1 < order.len() {
            assert(order[k - 1] != order[k + 1]);
        }
    }
    assert forall|b: int|
        0 <= b < linked_up.len() && after[b] == EMPTY_BLOCK implies (#[trigger] linked_up[b]) is None by {
        if b != order[k] {
            assert(nodes[b] is None);
            if k > 0 {
                assert(linked(nodes, order, k - 1));
            }
            if k + 1 < order.len() {
                assert(linked(nodes, order, k + 1));
            }
        }
    }
}

/// The list stays what it is when a block that holds an item before and
/// after changes.
pub proof fn lemma_list_stays(
    nodes: Seq<Option<Node>>,
    order: Seq<usize>,
    before: Seq<Block>,
    after: Seq<Block>,
    block: usize,
)
    requires
        is_block_list(nodes, order, before),
        block < before.len(),
        after == before.update(block as int, after[block as int]),
        (before[block as int] == EMPTY_BLOCK) == (after[block as int] == EMPTY_BLOCK),
    ensures
        is_block_list(nodes, order, after),
{
    lemma_block_stays(order, before, after, block, EMPTY_BLOCK);
    assert forall|k: int| 0 <= k < order.len() implies #[trigger] linked(nodes, order, k) by {}
}

/// A pool that keeps its slots in blocks of eight, with a stack of the
/// blocks that have a free slot and a doubly linked list of the blocks that
/// hold an item, which a block can leave without a search.
pub struct NotSafe<T: Clone> {
    items: Vec<Option<T>>,
    num_items: usize,
    flags: Vec<FlagBlock>,
    open_blocks: Vec<usize>,
    nodes: Vec<Option<Node>>,
    head: Option<usize>,
    alloc_order: Ghost<Seq<usize>>,
}

impl<T: Clone + 'static> NotSafe<T> {
    /// The blocks that have a free slot; allocations fill the last one.
    pub closed spec fn open_blocks(&self) -> Seq<usize> {
        self.open_blocks@
    }

    /// The blocks that hold an item, in the order of the list: the block
    /// that got its first item last comes first.
    pub closed spec fn alloc_blocks(&self) -> Seq<usize> {
        self.alloc_order@
    }

    /// The block that the next allocation fills: the last of the blocks with
    /// a free slot, or the first new block where there is none.
    pub open spec fn block_to_fill(&self) -> int {
        if self.open_blocks().len() > 0 {
            self.open_blocks().last() as int
        } else {
            self@.len() as int / 8
        }
    }

    /// No block has a free slot exactly when every slot holds an item.
    proof fn lemma_full_when_no_block_is_open(&self)
        requires
            Pool::wf(self),
        ensures
            live_count(self@) <= self@.len(),
            (self.open_blocks@.len() == 0) == (live_count(self@) == self@.len()),
    {
        lemma_live_count_bound(self@, 0);
        if self.open_blocks@.len() == 0 {
            assert forall|id: int| 0 <= id < self@.len() implies self@[id] is Some by {
                let b = id / 8;
                if self.flags[b] != FULL_BLOCK {
                    assert(self.open_blocks@.contains(b as usize));
                }
                lemma_empty_and_full(self.flags[b]);
                assert(flag_at(self.flags[b], (id % 8) as u8));
            }
            lemma_live_count_full(self@, 0);
        } else {
            let b = self.open_blocks@[0] as int;
            lemma_empty_and_full(self.flags[b]);
            let j = choose|j: u8| j < 8 && !#[trigger] flag_at(self.flags[b], j);
            lemma_live_count_leaves_out(self@, 8 * b + j, 0);
        }
    }

    /// The blocks of the list are those that `iter` walks.
    proof fn lemma_alloc_blocks_hold_the_items(&self)
        requires
            Pool::wf(self),
        ensures
            visits_each_item_once(ids_in_blocks(self@, self.alloc_blocks(), 0), self@),
    {
        let ids = ids_in_blocks(self@, self.alloc_order@, 0);
        assert(self.items@.len() == self.items.len());
        lemma_ids_in_blocks(self@, self.alloc_order@, 0);
        assert forall|id: int| is_live(self@, id) implies ids.contains(id as usize) by {
            let b = id / 8;
            assert(flag_at(self.flags[b], (id % 8) as u8));
            lemma_empty_and_full(self.flags[b]);
            assert(self.alloc_order@.contains(b as usize));
            let m = choose|m: int|
                0 <= m < self.alloc_order@.len() && self.alloc_order@[m] == b as usize;
            assert(listed(self.alloc_order@, 0, b));
        }
    }

    fn expand_if_needed(&mut self)
        requires
            Pool::wf(old(self)),
            old(self).has_room(),
        ensures
            Pool::wf(final(self)),
            final(self)@ == grown(old(self)@, doubled_blocks_len(old(self)@)),
            live_count(final(self)@) == live_count(old(self)@),
            final(self).open_blocks().len() > 0,
            final(self).open_blocks() == (if old(self).open_blocks().len() > 0 {
                old(self).open_blocks()
            } else {
                blocks_down(old(self)@.len() as int / 8, doubled_blocks_len(old(self)@) / 8)
            }),
            final(self).alloc_blocks() == old(self).alloc_blocks(),
    {
        proof {
            self.lemma_full_when_no_block_is_open();
        }
        if !self.open_blocks.is_empty() {
            assert(self@ =~= grown(old(self)@, doubled_blocks_len(old(self)@)));
            return
        }
        let old_num_blocks: usize = self.flags.len();
        let new_num_blocks: usize;
        if self.num_items == 0 {
            new_num_blocks = 1;
        } else {
            new_num_blocks = old_num_blocks * GROWTH_FACTOR;
        }
        let new_num_items: usize = new_num_blocks * FLAGS_PER_BLOCK;

        self.items.resize(new_num_items, None);
        self.flags.resize(new_num_blocks, EMPTY_BLOCK);
        let mut block: usize = new_num_blocks;
        while block > old_num_blocks
            invariant
                old_num_blocks <= block <= new_num_blocks,
                old_num_blocks == old(self).nodes@.len(),
                self.flags@.len() == new_num_blocks,
                self.open_blocks@ == blocks_down(block as int, new_num_blocks as int),
                self.nodes == old(self).nodes,
                self.head == old(self).head,
                self.alloc_order == old(self).alloc_order,
                self.num_items == old(self).num_items,
                self.items@ == grown(old(self)@, new_num_items as int),
                forall|b: int| 0 <= b < old_num_blocks ==> self.flags[b] == old(self).flags[b],
                forall|b: int| old_num_blocks <= b < new_num_blocks ==> self.flags[b] == 0,
            decreases block,
        {
            block -= 1;
            self.open_blocks.push(block);
            assert(self.open_blocks@ =~= blocks_down(block as int, new_num_blocks as int));
        }
        let mut num_nodes: usize = old_num_blocks;
        while num_nodes < new_num_blocks
            invariant
                old_num_blocks <= num_nodes <= new_num_blocks,
                old_num_blocks == old(self).nodes@.len(),
                self.nodes@.len() == num_nodes,
                self.flags@.len() == new_num_blocks,
                self.open_blocks@ == blocks_down(old_num_blocks as int, new_num_blocks as int),
                self.head == old(self).head,
                self.alloc_order == old(self).alloc_order,
                self.num_items == old(self).num_items,
                self.items@ == grown(old(self)@, new_num_items as int),
                forall|b: int| 0 <= b < old_num_blocks ==> self.flags[b] == old(self).flags[b],
                forall|b: int| old_num_blocks <= b < new_num_blocks ==> self.flags[b] == 0,
                forall|b: int| 0 <= b < old_num_blocks ==> self.nodes[b] == old(self).nodes[b],
                forall|b: int| old_num_blocks <= b < num_nodes ==> self.nodes[b] is None,
            decreases new_num_blocks - num_nodes,
        {
            self.nodes.push(None);
            num_nodes += 1;
        }
        proof {
            lemma_live_count_grown(old(self)@, new_num_items as int, 0);
            assert forall|b: int, j: u8|
                0 <= b < self.flags@.len() && j < 8 implies #[trigger] flag_at(self.flags@[b], j)
                == is_live(self.items@, 8 * b + j) by {
                if b < old_num_blocks {
                    assert(flag_at(old(self).flags@[b], j) == is_live(old(self).items@, 8 * b + j));
                } else {
                    lemma_empty_and_full(self.flags@[b]);
                }
            }
            assert forall|b: int|
                0 <= b < self.flags@.len() && (#[trigger] self.flags@[b])
                    != FULL_BLOCK implies self.open_blocks@.contains(b as usize) by {
                if b < old_num_blocks {
                    assert(old(self).flags@[b] != FULL_BLOCK);
                    assert(old(self).open_blocks@.contains(b as usize));
                } else {
                    assert(self.open_blocks@[new_num_blocks - 1 - b] == b as usize);
                }
            }
            assert forall|b: int|
                0 <= b < self.flags@.len() && (#[trigger] self.flags@[b])
                    != EMPTY_BLOCK implies self.alloc_order@.contains(b as usize) by {
                assert(old(self).flags@[b] != EMPTY_BLOCK);
            }
            assert forall|k: int| 0 <= k < self.alloc_order@.len() implies #[trigger] linked(
                self.nodes@,
                self.alloc_order@,
                k,
            ) by {
                assert(linked(old(self).nodes@, old(self).alloc_order@, k));
            }
            assert forall|b: int|
                0 <= b < self.nodes@.len() && self.flags@[b] == EMPTY_BLOCK implies (
            #[trigger] self.nodes@[b]) is None by {
                if b < old_num_blocks {
                    assert(old(self).nodes@[b] is None);
                }
            }
        }
    }
}

impl<T: Clone + 'static> Pool<T> for NotSafe<T> {
    type Iter<'a> = Iter<'a, T>;

    closed spec fn wf(&self) -> bool {
        &&& blocks_mark(self.flags@, self.items@)
        &&& self.num_items == live_count(self.items@)
        &&& lists_blocks_unlike(self.open_blocks@, self.flags@, FULL_BLOCK)
        &&& is_block_list(self.nodes@, self.alloc_order@, self.flags@)
        &&& self.head == block_at(self.alloc_order@, 0)
    }

    closed spec fn view(&self) -> Seq<Option<T>> {
        self.items@
    }

    open spec fn has_room(&self) -> bool {
        doubled_blocks_len(self@) <= usize::MAX
    }

    open spec fn can_hold(num_items: usize) -> bool {
        8 * ((num_items + 7) / 8) <= usize::MAX
    }

    fn new() -> (r: Self)
        ensures
            r.open_blocks().len() == 0,
            r.alloc_blocks().len() == 0,
    {
        return Self {
            items: Vec::new(),
            num_items: 0,
            flags: Vec::new(),
            open_blocks: Vec::new(),
            nodes: Vec::new(),
            head: None,
            alloc_order: Ghost(Seq::empty()),
        }
    }

    /// The slots come in whole blocks: as many blocks as `capacity` slots
    /// take up. Allocations fill the blocks in ascending order.
    fn with_capacity(capacity: usize) -> (r: Self)
        ensures
            r@.len() == 8 * ((capacity + 7) / 8),
            r.open_blocks() == blocks_down(0, (capacity + 7) / 8),
            r.alloc_blocks().len() == 0,
    {
        let num_blocks: usize = if capacity == 0 {
            0
        } else {
            ((capacity - 1) / FLAGS_PER_BLOCK) + 1
        };
        let items: Vec<Option<T>> = vec![None; num_blocks * FLAGS_PER_BLOCK];
        let num_items: usize = 0;

        let flags: Vec<FlagBlock> = vec![0; num_blocks];
        let mut open_blocks: Vec<usize> = Vec::new();
        let mut block: usize = num_blocks;
        while block > 0
            invariant
                block <= num_blocks,
                open_blocks@ == blocks_down(block as int, num_blocks as int),
            decreases block,
        {
            block -= 1;
            open_blocks.push(block);
            assert(open_blocks@ =~= blocks_down(block as int, num_blocks as int));
        }
        let mut nodes: Vec<Option<Node>> = Vec::new();
        while nodes.len() < num_blocks
            invariant
                nodes.len() <= num_blocks,
                forall|b: int| 0 <= b < nodes.len() ==> nodes[b] is None,
            decreases num_blocks - nodes.len(),
        {
            nodes.push(None);
        }
        let head: Option<usize> = None;

        let r = Self {
            items,
            num_items,
            flags,
            open_blocks,
            nodes,
            head,
            alloc_order: Ghost(Seq::empty()),
        };
        proof {
            lemma_live_count_grown(Seq::<Option<T>>::empty(), r.items@.len() as int, 0);
            assert(r.items@ =~= grown(Seq::<Option<T>>::empty(), r.items@.len() as int));
            assert forall|b: int, j: u8|
                0 <= b < r.flags@.len() && j < 8 implies #[trigger] flag_at(r.flags@[b], j)
                == is_live(r.items@, 8 * b + j) by {
                lemma_empty_and_full(r.flags@[b]);
            }
            assert forall|b: int|
                0 <= b < r.flags@.len() && (#[trigger] r.flags@[b])
                    != FULL_BLOCK implies r.open_blocks@.contains(b as usize) by {
                assert(r.open_blocks@[num_blocks - 1 - b] == b as usize);
            }
        }
        return r
    }

    fn len(&self) -> (r: usize) {
        return self.num_items
    }

    fn get(&self, id: usize) -> (r: &T) {
        return self.items[id].as_ref().unwrap()
    }

    fn get_mut(&mut self, id: usize) -> (r: &mut T)
        ensures
            final(self).open_blocks() == old(self).open_blocks(),
            final(self).alloc_blocks() == old(self).alloc_blocks(),
    {
        proof {
            assert forall|x: T| #[trigger] live_count(old(self).items@.update(id as int, Some(x)))
                == live_count(old(self).items@) && blocks_mark(
                old(self).flags@,
                old(self).items@.update(id as int, Some(x)),
            ) by {
                lemma_live_count_update(old(self).items@, id as int, Some(x), 0);
                let after = old(self).items@.update(id as int, Some(x));
                assert forall|b: int, j: u8|
                    0 <= b < old(self).flags@.len() && j < 8 implies #[trigger] flag_at(
                    old(self).flags@[b],
                    j,
                ) == is_live(after, 8 * b + j) by {
                    assert(flag_at(old(self).flags@[b], j) == is_live(
                        old(self).items@,
                        8 * b + j,
                    ));
                }
            }
        }
        return self.items[id].as_mut().unwrap()
    }

    /// The id is the lowest free one of the block to fill, after the slots
    /// have doubled where none was free. A block that gets its first item
    /// goes in front of the list of the blocks that hold an item.
    fn allocate(&mut self, item: T) -> (id: usize)
        ensures
            final(self)@.len() == doubled_blocks_len(old(self)@),
            is_first_free_in_block(
                grown(old(self)@, doubled_blocks_len(old(self)@)),
                old(self).block_to_fill(),
                id as int,
            ),
    {
        self.expand_if_needed();
        let ghost before = *self;
        let open_block: usize = self.open_blocks[self.open_blocks.len() - 1];
        let flags_before: FlagBlock = self.flags[open_block];
        proof {
            lemma_lowest_clear_flag(flags_before);
            assert(self.items@.len() == self.items.len());
            assert(self.flags@.len() == self.flags.len());
        }
        let local_bit: usize = flags_before.trailing_ones() as usize;
        self.flags[open_block] = flags_before | (1u8 << (local_bit as u8));
        proof {
            lemma_ones_after_set(flags_before, local_bit as u8);
            lemma_empty_and_full(flags_before);
            lemma_empty_and_full(self.flags[open_block as int]);
        }

        let block_is_now_full: bool = self.flags[open_block] == FULL_BLOCK;
        if block_is_now_full {
            self.open_blocks.pop().unwrap();
            proof {
                assert(self.open_blocks@ =~= before.open_blocks@.remove(
                    before.open_blocks@.len() - 1,
                ));
                lemma_block_leaves(
                    before.open_blocks@,
                    before.flags@,
                    self.flags@,
                    before.open_blocks@.len() - 1,
                    FULL_BLOCK,
                );
            }
        } else {
            proof {
                lemma_block_stays(
                    before.open_blocks@,
                    before.flags@,
                    self.flags@,
                    open_block,
                    FULL_BLOCK,
                );
            }
        }

        let block_now_has_one_item_allocated: bool = count_ones(self.flags[open_block]) == 1;
        if block_now_has_one_item_allocated {
            let node: Node = Node { block: open_block, prev: None, next: self.head };
            self.nodes[open_block] = Some(node);
            match self.head {
                Some(head) => {
                    proof {
                        assert(linked(before.nodes@, before.alloc_order@, 0));
                    }
                    let first: Node = self.nodes[head].unwrap();
                    self.nodes[head] = Some(
                        Node { block: first.block, prev: Some(open_block), next: first.next },
                    );
                },
                None => {},
            }
            self.head = Some(open_block);
            proof {
                self.alloc_order@ = seq![open_block] + before.alloc_order@;
                lemma_push_front(
                    before.nodes@,
                    before.alloc_order@,
                    before.flags@,
                    self.flags@,
                    open_block,
                );
                assert(self.nodes@ =~= pushed_front(
                    before.nodes@,
                    before.alloc_order@,
                    open_block,
                ));
            }
        } else {
            proof {
                lemma_list_stays(
                    before.nodes@,
                    before.alloc_order@,
                    before.flags@,
                    self.flags@,
                    open_block,
                );
            }
        }

        let global_bit: usize = open_block * FLAGS_PER_BLOCK + local_bit;
        proof {
            assert(!flag_at(flags_before, local_bit as u8));
            assert(!is_live(before.items@, 8 * open_block + local_bit as u8));
            assert forall|j: int| 8 * open_block <= j < global_bit implies before.items@[j] is Some by {
                assert(flag_at(flags_before, (j - 8 * open_block) as u8));
                assert(is_live(before.items@, 8 * open_block + (j - 8 * open_block) as u8));
            }
        }
        self.items[global_bit] = Some(item);
        proof {
            lemma_live_count_update(before.items@, global_bit as int, Some(item), 0);
            lemma_live_count_bound(self.items@, 0);
            assert forall|b: int, j: u8|
                0 <= b < self.flags@.len() && j < 8 implies #[trigger] flag_at(self.flags@[b], j)
                == is_live(self.items@, 8 * b + j) by {
                assert(flag_at(before.flags@[b], j) == is_live(before.items@, 8 * b + j));
                if b == open_block {
                    lemma_set_flag(flags_before, local_bit as u8, j);
                }
            }
        }
        self.num_items += 1;
        return global_bit
    }

    /// A block that loses its last item leaves the list of the blocks that
    /// hold an item.
    fn deallocate(&mut self, id: usize) {
        let block: usize = id / FLAGS_PER_BLOCK;
        let local_bit: usize = id % FLAGS_PER_BLOCK;
        let flags_before: FlagBlock = self.flags[block];
        proof {
            assert(flag_at(flags_before, local_bit as u8) == is_live(
                self.items@,
                8 * block + local_bit as u8,
            ));
            lemma_ones_after_clear(flags_before, local_bit as u8);
            lemma_empty_and_full(flags_before);
            assert(self.flags@.len() == self.flags.len());
            assert(self.flags@[block as int] != EMPTY_BLOCK);
            assert(self.alloc_order@.contains(block));
        }
        let was_block_full: bool = self.flags[block] == FULL_BLOCK;
        self.flags[block] = flags_before & !(1u8 << (local_bit as u8));
        proof {
            lemma_empty_and_full(self.flags[block as int]);
        }

        let block_is_no_longer_full: bool = was_block_full;
        if block_is_no_longer_full {
            self.open_blocks.push(block);
            proof {
                lemma_block_joins(
                    old(self).open_blocks@,
                    old(self).flags@,
                    self.flags@,
                    block,
                    FULL_BLOCK,
                );
            }
        } else {
            proof {
                lemma_block_stays(
                    old(self).open_blocks@,
                    old(self).flags@,
                    self.flags@,
                    block,
                    FULL_BLOCK,
                );
            }
        }

        let block_is_now_empty: bool = self.flags[block] == EMPTY_BLOCK;
        if block_is_now_empty {
            let ghost order = old(self).alloc_order@;
            let ghost at = choose|m: int| 0 <= m < order.len() && order[m] == block;
            proof {
                assert(linked(old(self).nodes@, order, at));
                if at > 0 {
                    assert(linked(old(self).nodes@, order, at - 1));
                }
                if at + 1 < order.len() {
                    assert(linked(old(self).nodes@, order, at + 1));
                }
            }
            let node: Node = self.nodes[block].unwrap();
            let is_head: bool = match self.head {
                Some(head) => head == block,
                None => false,
            };
            if is_head {
                self.head = node.next;
            }
            match node.prev {
                Some(prev) => {
                    let before: Node = self.nodes[prev].unwrap();
                    self.nodes[prev] = Some(
                        Node { block: before.block, prev: before.prev, next: node.next },
                    );
                },
                None => {},
            }
            match node.next {
                Some(next) => {
                    let after: Node = self.nodes[next].unwrap();
                    self.nodes[next] = Some(
                        Node { block: after.block, prev: node.prev, next: after.next },
                    );
                },
                None => {},
            }
            self.nodes[block] = None;
            proof {
                self.alloc_order@ = order.remove(at);
                lemma_unlink(old(self).nodes@, order, old(self).flags@, self.flags@, at);
                assert(self.nodes@ =~= unlinked(old(self).nodes@, order, at));
                if at == 0 && order.len() > 1 {
                    assert(order.remove(at)[0] == order[1]);
                }
                if at > 0 {
                    assert(order.remove(at)[0] == order[0]);
                }
            }
        } else {
            proof {
                lemma_list_stays(
                    old(self).nodes@,
                    old(self).alloc_order@,
                    old(self).flags@,
                    self.flags@,
                    block,
                );
            }
        }

        let global_bit: usize = block * FLAGS_PER_BLOCK + local_bit;
        self.items[global_bit] = None;
        proof {
            lemma_live_count_update(old(self).items@, id as int, None, 0);
            assert forall|b: int, j: u8|
                0 <= b < self.flags@.len() && j < 8 implies #[trigger] flag_at(self.flags@[b], j)
                == is_live(self.items@, 8 * b + j) by {
                assert(flag_at(old(self).flags@[b], j) == is_live(old(self).items@, 8 * b + j));
                if b == block {
                    lemma_clear_flag(flags_before, local_bit as u8, j);
                }
            }
        }
        self.num_items -= 1;
    }

    /// The blocks that hold an item come in the order of the list, and the
    /// items of a block in ascending order of id.
    open spec fn iter_order(&self) -> Seq<usize> {
        ids_in_blocks(self@, self.alloc_blocks(), 0)
    }

    fn iter<'a>(&'a self) -> (r: Iter<'a, T>) {
        proof {
            self.lemma_alloc_blocks_hold_the_items();
        }
        return Iter::new(&self.items, &self.flags, &self.nodes, self.head, Ghost(self.alloc_order@))
    }
}

/// How far a walk has come: the blocks of the list, the position in it of
/// the block to open next, the block that is open, and the position in that
/// block from which on its flags have not been returned.
pub struct Progress {
    pub order: Seq<usize>,
    pub next: int,
    pub block: int,
    pub low: int,
}

/// Walks the items of a `NotSafe` pool block by block.
pub struct Iter<'a, T: Clone> {
    items: &'a Vec<Option<T>>,
    flags: &'a Vec<FlagBlock>,
    nodes: &'a Vec<Option<Node>>,
    next_node: Option<usize>,
    curr_flags: FlagBlock,
    curr_offset: usize,
    progress: Ghost<Progress>,
}

impl<'a, T: Clone> Iter<'a, T> {
    /// The ids of the items that are still to come.
    pub closed spec fn remaining_ids(&self) -> Seq<usize> {
        ids_in_block(self.items@, self.progress@.block, self.progress@.low) + ids_in_blocks(
            self.items@,
            self.progress@.order,
            self.progress@.next,
        )
    }

    fn new(
        items: &'a Vec<Option<T>>,
        flags: &'a Vec<FlagBlock>,
        nodes: &'a Vec<Option<Node>>,
        head: Option<usize>,
        Ghost(order): Ghost<Seq<usize>>,
    ) -> (r: Self)
        requires
            blocks_mark(flags@, items@),
            is_block_list(nodes@, order, flags@),
            head == block_at(order, 0),
        ensures
            r.wf(),
            r.remaining() == items_at(ids_in_blocks(items@, order, 0), items@),
    {
        proof {
            lemma_empty_and_full(0);
            assert(items@.len() == items.len());
        }
        match head {
            None => {
                let r = Self {
                    items,
                    flags,
                    nodes,
                    next_node: None,
                    curr_flags: 0,
                    curr_offset: 0,
                    progress: Ghost(Progress { order, next: 0, block: 0, low: 8 }),
                };
                assert(r.remaining_ids() =~= ids_in_blocks(items@, order, 0));
                return r
            },
            Some(head) => {
                assert(linked(nodes@, order, 0));
                let node: Node = nodes[head].unwrap();
                let r = Self {
                    items,
                    flags,
                    nodes,
                    next_node: node.next,
                    curr_flags: flags[node.block],
                    curr_offset: node.block * FLAGS_PER_BLOCK,
                    progress: Ghost(Progress { order, next: 1, block: head as int, low: 0 }),
                };
                assert(r.remaining_ids() =~= ids_in_blocks(items@, order, 0));
                return r
            },
        }
    }
}

impl<'a, T: Clone> Traversal for Iter<'a, T> {
    type Item = &'a T;

    closed spec fn wf(&self) -> bool {
        &&& blocks_mark(self.flags@, self.items@)
        &&& is_block_list(self.nodes@, self.progress@.order, self.flags@)
        &&& 0 <= self.progress@.next
        &&& self.next_node == block_at(self.progress@.order, self.progress@.next)
        &&& 0 <= self.progress@.block
        &&& 0 <= self.progress@.low <= 8
        &&& self.curr_offset == 8 * self.progress@.block
        &&& forall|j: u8|
            j < 8 ==> #[trigger] flag_at(self.curr_flags, j) == (j >= self.progress@.low
                && is_live(self.items@, 8 * self.progress@.block + j))
    }

    closed spec fn remaining(&self) -> Seq<&'a T> {
        items_at(self.remaining_ids(), self.items@)
    }

    fn next(&mut self) -> (r: Option<&'a T>) {
        proof {
            lemma_empty_and_full(self.curr_flags);
            assert(self.items@.len() == self.items.len());
        }
        if self.curr_flags == EMPTY_BLOCK {
            proof {
                assert forall|j: int| self.progress@.low <= j < 8 implies !#[trigger] holds(
                    self.items@,
                    self.progress@.block,
                    j,
                ) by {
                    assert(!flag_at(self.curr_flags, j as u8));
                }
                lemma_ids_in_block_skip(self.items@, self.progress@.block, self.progress@.low, 8);
            }
            match self.next_node {
                None => {
                    assert(old(self).remaining_ids() =~= Seq::<usize>::empty());
                    return None
                },
                Some(curr) => {
                    proof {
                        assert(linked(self.nodes@, self.progress@.order, self.progress@.next));
                    }
                    let node: Node = self.nodes[curr].unwrap();
                    self.next_node = node.next;
                    self.curr_flags = self.flags[node.block];
                    self.curr_offset = node.block * FLAGS_PER_BLOCK;
                    proof {
                        self.progress@ = Progress {
                            order: self.progress@.order,
                            next: self.progress@.next + 1,
                            block: curr as int,
                            low: 0,
                        };
                        assert(self.remaining_ids() =~= old(self).remaining_ids());
                    }
                },
            }
        }
        proof {
            lemma_lowest_set_flag(self.curr_flags);
        }
        let local_offset: FlagBlock = self.curr_flags.trailing_zeros() as FlagBlock;
        let global_offset: usize = self.curr_offset + local_offset as usize;
        let ghost flags_before = self.curr_flags;
        let ghost open_before = self.progress@;
        self.curr_flags = self.curr_flags & !(1u8 << local_offset);
        proof {
            assert(flag_at(flags_before, local_offset));
            self.progress@ = Progress {
                order: open_before.order,
                next: open_before.next,
                block: open_before.block,
                low: local_offset + 1,
            };
            assert forall|j: u8| j < 8 implies #[trigger] flag_at(self.curr_flags, j) == (j
                >= self.progress@.low && is_live(self.items@, 8 * self.progress@.block + j)) by {
                lemma_clear_flag(flags_before, local_offset, j);
                assert(flag_at(flags_before, j) == (j >= open_before.low && is_live(
                    self.items@,
                    8 * open_before.block + j,
                )));
            }
            assert forall|j: int| open_before.low <= j < local_offset implies !#[trigger] holds(
                self.items@,
                open_before.block,
                j,
            ) by {
                assert(!flag_at(flags_before, j as u8));
            }
            lemma_ids_in_block_skip(
                self.items@,
                open_before.block,
                open_before.low,
                local_offset as int,
            );
            assert(old(self).remaining_ids().drop_first() =~= self.remaining_ids());
            assert(old(self).remaining_ids()[0] == global_offset);
            assert(old(self).remaining().drop_first() =~= self.remaining());
        }
        let item: &T = self.items[global_offset].as_ref().unwrap();
        return Some(item)
    }
}

} // verus!
