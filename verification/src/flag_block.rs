//! Blocks of eight allocation flags, for the pools that keep their slots in
//! blocks and walk the blocks that hold an item.

use vstd::prelude::*;
use crate::{is_live, live_count};

verus! {

pub type Block = u8;

pub const BITS_PER_BYTE: usize = 8;

pub const FLAGS_PER_BLOCK: usize = 8;

pub const EMPTY_BLOCK: Block = 0;

pub const FULL_BLOCK: Block = 255;

/// Whether flag `j` of the block `w` is set. Meant for `j < 8`.
pub open spec fn flag_at(w: u8, j: u8) -> bool {
    (w >> j) & 1u8 == 1u8
}

/// One for a set flag, zero for a clear one.
pub open spec fn one_if(flag: bool) -> int {
    if flag {
        1
    } else {
        0
    }
}

/// The number of flags of the block `w` that are set.
pub open spec fn ones(w: u8) -> int {
    one_if(flag_at(w, 0)) + one_if(flag_at(w, 1)) + one_if(flag_at(w, 2)) + one_if(flag_at(w, 3))
        + one_if(flag_at(w, 4)) + one_if(flag_at(w, 5)) + one_if(flag_at(w, 6)) + one_if(
        flag_at(w, 7),
    )
}

/// `u8::count_ones`: the number of bits of `w` that are one.
#[verifier::external_body]
pub(crate) fn count_ones(w: Block) -> (r: u32)
    ensures
        r == ones(w),
{
    w.count_ones()
}

/// Or-ing in a one-bit mask sets that flag and no other.
pub proof fn lemma_set_flag(w: u8, i: u8, j: u8)
    requires
        i < 8,
        j < 8,
    ensures
        flag_at(w | (1u8 << i), j) == (j == i || flag_at(w, j)),
{
    assert((((w | (1u8 << i)) >> j) & 1u8 == 1u8) == (j == i || (w >> j) & 1u8 == 1u8))
        by (bit_vector)
        requires
            i < 8,
            j < 8,
    ;
}

/// And-ing with the complement of a one-bit mask clears that flag and no
/// other.
pub proof fn lemma_clear_flag(w: u8, i: u8, j: u8)
    requires
        i < 8,
        j < 8,
    ensures
        flag_at(w & !(1u8 << i), j) == (j != i && flag_at(w, j)),
{
    assert((((w & !(1u8 << i)) >> j) & 1u8 == 1u8) == (j != i && (w >> j) & 1u8 == 1u8))
        by (bit_vector)
        requires
            i < 8,
            j < 8,
    ;
}

/// A block is empty exactly when none of its flags is set, and full exactly
/// when all of them are.
pub proof fn lemma_empty_and_full(w: u8)
    ensures
        (w == 0) == (forall|j: u8| j < 8 ==> !#[trigger] flag_at(w, j)),
        (w == 255) == (forall|j: u8| j < 8 ==> #[trigger] flag_at(w, j)),
        (w == 0) == (ones(w) == 0),
        (w == 255) == (ones(w) == 8),
{
    assert((w == 0) == ((w >> 0u8) & 1u8 != 1u8 && (w >> 1u8) & 1u8 != 1u8 && (w >> 2u8) & 1u8
        != 1u8 && (w >> 3u8) & 1u8 != 1u8 && (w >> 4u8) & 1u8 != 1u8 && (w >> 5u8) & 1u8 != 1u8
        && (w >> 6u8) & 1u8 != 1u8 && (w >> 7u8) & 1u8 != 1u8)) by (bit_vector);
    assert((w == 255) == ((w >> 0u8) & 1u8 == 1u8 && (w >> 1u8) & 1u8 == 1u8 && (w >> 2u8) & 1u8
        == 1u8 && (w >> 3u8) & 1u8 == 1u8 && (w >> 4u8) & 1u8 == 1u8 && (w >> 5u8) & 1u8 == 1u8
        && (w >> 6u8) & 1u8 == 1u8 && (w >> 7u8) & 1u8 == 1u8)) by (bit_vector);
    if forall|j: u8| j < 8 ==> !#[trigger] flag_at(w, j) {
        assert(!flag_at(w, 0) && !flag_at(w, 1) && !flag_at(w, 2) && !flag_at(w, 3) && !flag_at(
            w,
            4,
        ) && !flag_at(w, 5) && !flag_at(w, 6) && !flag_at(w, 7));
    }
    if forall|j: u8| j < 8 ==> #[trigger] flag_at(w, j) {
        assert(flag_at(w, 0) && flag_at(w, 1) && flag_at(w, 2) && flag_at(w, 3) && flag_at(w, 4)
            && flag_at(w, 5) && flag_at(w, 6) && flag_at(w, 7));
    }
}

/// Setting a clear flag gives a block with one flag set exactly where the
/// block was empty, and a full block exactly where seven flags were set.
pub proof fn lemma_ones_after_set(w: u8, i: u8)
    requires
        i < 8,
        !flag_at(w, i),
    ensures
        ones(w | (1u8 << i)) == ones(w) + 1,
        (ones(w | (1u8 << i)) == 1) == (w == 0),
{
    lemma_set_flag(w, i, 0);
    lemma_set_flag(w, i, 1);
    lemma_set_flag(w, i, 2);
    lemma_set_flag(w, i, 3);
    lemma_set_flag(w, i, 4);
    lemma_set_flag(w, i, 5);
    lemma_set_flag(w, i, 6);
    lemma_set_flag(w, i, 7);
    lemma_empty_and_full(w);
}

/// Clearing a set flag gives a block with seven flags set exactly where the
/// block was full.
pub proof fn lemma_ones_after_clear(w: u8, i: u8)
    requires
        i < 8,
        flag_at(w, i),
    ensures
        ones(w & !(1u8 << i)) == ones(w) - 1,
        (ones(w & !(1u8 << i)) == 7) == (w == 255),
{
    lemma_clear_flag(w, i, 0);
    lemma_clear_flag(w, i, 1);
    lemma_clear_flag(w, i, 2);
    lemma_clear_flag(w, i, 3);
    lemma_clear_flag(w, i, 4);
    lemma_clear_flag(w, i, 5);
    lemma_clear_flag(w, i, 6);
    lemma_clear_flag(w, i, 7);
    lemma_empty_and_full(w);
}

/// The number of trailing ones of a block that is not full is the position
/// of its lowest clear flag.
pub proof fn lemma_lowest_clear_flag(w: u8)
    requires
        w != 255,
    ensures
        w.trailing_ones() < 8,
        !flag_at(w, w.trailing_ones() as u8),
        forall|j: u8| j < w.trailing_ones() ==> #[trigger] flag_at(w, j),
{
    vstd::std_specs::bits::axiom_u8_trailing_ones(w);
    let t: u32 = w.trailing_ones();
    assert((w >> (t as u8)) & 1u8 == 0u8);
    assert forall|j: u8| j < t implies #[trigger] flag_at(w, j) by {
        assert((w >> j) & 1u8 == 1u8);
    }
}

/// The number of trailing zeros of a block that is not empty is the position
/// of its lowest set flag.
pub proof fn lemma_lowest_set_flag(w: u8)
    requires
        w != 0,
    ensures
        w.trailing_zeros() < 8,
        flag_at(w, w.trailing_zeros() as u8),
        forall|j: u8| j < w.trailing_zeros() ==> !#[trigger] flag_at(w, j),
{
    vstd::std_specs::bits::axiom_u8_trailing_zeros(w);
    let t: u32 = w.trailing_zeros();
    assert forall|j: u8| j < t implies !#[trigger] flag_at(w, j) by {
        assert((w >> j) & 1u8 == 0u8);
    }
}

/// The flags of the blocks say which slots hold an item: flag `j` of block
/// `b` stands for slot `8 * b + j`.
pub open spec fn blocks_mark<T>(flags: Seq<Block>, slots: Seq<Option<T>>) -> bool {
    &&& slots.len() == 8 * flags.len()
    &&& forall|b: int, j: u8|
        0 <= b < flags.len() && j < 8 ==> #[trigger] flag_at(flags[b], j) == is_live(
            slots,
            8 * b + j,
        )
}

/// Slot `j` of block `block` holds an item.
pub open spec fn holds<T>(slots: Seq<Option<T>>, block: int, j: int) -> bool {
    is_live(slots, 8 * block + j)
}

/// `id` is the lowest slot of block `block` that holds no item.
pub open spec fn is_first_free_in_block<T>(slots: Seq<Option<T>>, block: int, id: int) -> bool {
    &&& 8 * block <= id < 8 * block + 8
    &&& id < slots.len()
    &&& slots[id] is None
    &&& forall|j: int| 8 * block <= j < id ==> slots[j] is Some
}

/// The ids of the slots of block `block` that hold an item, from position
/// `from` of the block on, in ascending order.
pub open spec fn ids_in_block<T>(slots: Seq<Option<T>>, block: int, from: int) -> Seq<usize>
    decreases 8 - from,
{
    if from < 0 || from >= 8 {
        Seq::empty()
    } else if is_live(slots, 8 * block + from) {
        seq![(8 * block + from) as usize] + ids_in_block(slots, block, from + 1)
    } else {
        ids_in_block(slots, block, from + 1)
    }
}

/// The ids of the slots that hold an item, block by block in the order of
/// `blocks` from position `from` of `blocks` on, and in ascending order
/// within a block.
pub open spec fn ids_in_blocks<T>(slots: Seq<Option<T>>, blocks: Seq<usize>, from: int) -> Seq<
    usize,
>
    decreases blocks.len() - from,
{
    if from < 0 || from >= blocks.len() {
        Seq::empty()
    } else {
        ids_in_block(slots, blocks[from] as int, 0) + ids_in_blocks(slots, blocks, from + 1)
    }
}

/// Block `block` is one of `blocks` from position `from` on.
pub open spec fn listed(blocks: Seq<usize>, from: int, block: int) -> bool {
    exists|m: int| from <= m < blocks.len() && #[trigger] blocks[m] == block
}

/// The ids that `ids_in_block` gives are ascending and are those of the
/// slots of the block, from `from` on, that hold an item.
pub proof fn lemma_ids_in_block<T>(slots: Seq<Option<T>>, block: int, from: int)
    requires
        0 <= block,
        0 <= from <= 8,
        8 * block + 8 <= slots.len() <= usize::MAX,
    ensures
        forall|k: int|
            0 <= k < ids_in_block(slots, block, from).len() ==> 8 * block + from
                <= #[trigger] ids_in_block(slots, block, from)[k] < 8 * block + 8 && is_live(
                slots,
                ids_in_block(slots, block, from)[k] as int,
            ),
        forall|j: int, k: int|
            0 <= j < k < ids_in_block(slots, block, from).len() ==> ids_in_block(
                slots,
                block,
                from,
            )[j] < ids_in_block(slots, block, from)[k],
        forall|id: int|
            8 * block + from <= id < 8 * block + 8 && is_live(slots, id) ==> ids_in_block(
                slots,
                block,
                from,
            ).contains(id as usize),
    decreases 8 - from,
{
    let ids = ids_in_block(slots, block, from);
    if from < 8 {
        lemma_ids_in_block(slots, block, from + 1);
        let rest = ids_in_block(slots, block, from + 1);
        if is_live(slots, 8 * block + from) {
            assert(ids[0] == 8 * block + from);
            assert forall|k: int| 1 <= k < ids.len() implies ids[k] == rest[k - 1] by {}
            assert forall|id: int|
                8 * block + from <= id < 8 * block + 8 && is_live(slots, id) implies ids.contains(
                id as usize,
            ) by {
                if id > 8 * block + from {
                    let k = choose|k: int| 0 <= k < rest.len() && rest[k] == id as usize;
                    assert(ids[k + 1] == id as usize);
                }
            }
        }
    }
}

/// Walking the blocks that hold an item, each of them once, visits each item
/// once.
pub proof fn lemma_ids_in_blocks<T>(slots: Seq<Option<T>>, blocks: Seq<usize>, from: int)
    requires
        blocks.no_duplicates(),
        forall|m: int| 0 <= m < blocks.len() ==> 8 * (#[trigger] blocks[m]) + 8 <= slots.len(),
        slots.len() <= usize::MAX,
        0 <= from,
    ensures
        forall|k: int|
            0 <= k < ids_in_blocks(slots, blocks, from).len() ==> is_live(
                slots,
                #[trigger] ids_in_blocks(slots, blocks, from)[k] as int,
            ) && listed(blocks, from, ids_in_blocks(slots, blocks, from)[k] as int / 8),
        ids_in_blocks(slots, blocks, from).no_duplicates(),
        forall|id: int|
            is_live(slots, id) && listed(blocks, from, id / 8) ==> ids_in_blocks(
                slots,
                blocks,
                from,
            ).contains(id as usize),
    decreases blocks.len() - from,
{
    let ids = ids_in_blocks(slots, blocks, from);
    if from < blocks.len() {
        let block = blocks[from] as int;
        let head = ids_in_block(slots, block, 0);
        let tail = ids_in_blocks(slots, blocks, from + 1);
        lemma_ids_in_block(slots, block, 0);
        lemma_ids_in_blocks(slots, blocks, from + 1);
        assert forall|k: int| 0 <= k < ids.len() implies is_live(slots, #[trigger] ids[k] as int)
            && listed(blocks, from, ids[k] as int / 8) by {
            if k < head.len() {
                assert(ids[k] == head[k]);
                assert(blocks[from] == head[k] as int / 8);
            } else {
                assert(ids[k] == tail[k - head.len()]);
                let m = choose|m: int|
                    from + 1 <= m < blocks.len() && #[trigger] blocks[m] == tail[k
                        - head.len()] as int / 8;
                assert(blocks[m] == ids[k] as int / 8);
            }
        }
        assert forall|j: int, k: int| 0 <= j < k < ids.len() implies ids[j] != ids[k] by {
            if k < head.len() {
                assert(ids[j] == head[j] && ids[k] == head[k]);
            } else if j >= head.len() {
                assert(ids[j] == tail[j - head.len()] && ids[k] == tail[k - head.len()]);
            } else {
                assert(ids[j] == head[j] && ids[k] == tail[k - head.len()]);
                let m = choose|m: int|
                    from + 1 <= m < blocks.len() && #[trigger] blocks[m] == tail[k
                        - head.len()] as int / 8;
                assert(blocks[m] != blocks[from]);
            }
        }
        assert forall|id: int|
            is_live(slots, id) && listed(blocks, from, id / 8) implies ids.contains(
            id as usize,
        ) by {
            let m = choose|m: int| from <= m < blocks.len() && #[trigger] blocks[m] == id / 8;
            if m == from {
                let k = choose|k: int| 0 <= k < head.len() && head[k] == id as usize;
                assert(ids[k] == id as usize);
            } else {
                assert(listed(blocks, from + 1, id / 8));
                let k = choose|k: int| 0 <= k < tail.len() && tail[k] == id as usize;
                assert(ids[k + head.len()] == id as usize);
            }
        }
    }
}

/// Where no slot of the block from position `from` up to `to` holds an item,
/// the ids from `from` on are those from `to` on.
pub proof fn lemma_ids_in_block_skip<T>(slots: Seq<Option<T>>, block: int, from: int, to: int)
    requires
        0 <= from <= to <= 8,
        forall|j: int| from <= j < to ==> !#[trigger] holds(slots, block, j),
    ensures
        ids_in_block(slots, block, from) == ids_in_block(slots, block, to),
    decreases to - from,
{
    if from < to {
        assert(!holds(slots, block, from));
        lemma_ids_in_block_skip(slots, block, from + 1, to);
    }
}

/// The number of slots after an allocation where the slots come in blocks
/// of eight: as many as before while a slot is free, else one block for an
/// empty pool and twice as many slots for any other.
pub open spec fn doubled_blocks_len<T>(slots: Seq<Option<T>>) -> int {
    if live_count(slots) < slots.len() {
        slots.len() as int
    } else if slots.len() == 0 {
        8
    } else {
        2 * (slots.len() as int)
    }
}

/// The blocks from `to` down to `from`, `to` left out, in descending order.
pub open spec fn blocks_down(from: int, to: int) -> Seq<usize> {
    Seq::new((to - from) as nat, |k: int| (to - 1 - k) as usize)
}

/// `blocks` names every block of `flags` that differs from `skipped`, each
/// of them once, and no other block.
pub open spec fn lists_blocks_unlike(blocks: Seq<usize>, flags: Seq<Block>, skipped: Block) -> bool {
    &&& blocks.no_duplicates()
    &&& forall|m: int|
        0 <= m < blocks.len() ==> (#[trigger] blocks[m]) < flags.len() && flags[blocks[m] as int]
            != skipped
    &&& forall|b: int|
        0 <= b < flags.len() && (#[trigger] flags[b]) != skipped ==> blocks.contains(b as usize)
}

/// A list of blocks stays one of the blocks unlike `skipped` when a block
/// that was like `skipped` and no longer is goes on top of it.
pub proof fn lemma_block_joins(
    blocks: Seq<usize>,
    before: Seq<Block>,
    after: Seq<Block>,
    block: usize,
    skipped: Block,
)
    requires
        lists_blocks_unlike(blocks, before, skipped),
        block < before.len() <= usize::MAX,
        after == before.update(block as int, after[block as int]),
        before[block as int] == skipped,
        after[block as int] != skipped,
    ensures
        lists_blocks_unlike(blocks.push(block), after, skipped),
{
    let longer = blocks.push(block);
    assert forall|m: int| 0 <= m < longer.len() implies (#[trigger] longer[m]) < after.len()
        && after[longer[m] as int] != skipped by {
        if m < blocks.len() {
            assert(longer[m] == blocks[m]);
        }
    }
    assert forall|b: int|
        0 <= b < after.len() && (#[trigger] after[b]) != skipped implies longer.contains(
        b as usize,
    ) by {
        if b == block {
            assert(longer[blocks.len() as int] == block);
        } else {
            assert(before[b] != skipped);
            let m = choose|m: int| 0 <= m < blocks.len() && blocks[m] == b as usize;
            assert(longer[m] == b as usize);
        }
    }
}

/// A list of blocks stays one of the blocks unlike `skipped` when the block
/// at position `at`, which has become like `skipped`, leaves it.
pub proof fn lemma_block_leaves(
    blocks: Seq<usize>,
    before: Seq<Block>,
    after: Seq<Block>,
    at: int,
    skipped: Block,
)
    requires
        lists_blocks_unlike(blocks, before, skipped),
        0 <= at < blocks.len(),
        before.len() <= usize::MAX,
        after == before.update(blocks[at] as int, skipped),
    ensures
        lists_blocks_unlike(blocks.remove(at), after, skipped),
{
    let shorter = blocks.remove(at);
    assert forall|m: int| 0 <= m < shorter.len() implies (#[trigger] shorter[m]) < after.len()
        && after[shorter[m] as int] != skipped by {
        if m < at {
            assert(shorter[m] == blocks[m]);
        } else {
            assert(shorter[m] == blocks[m + 1]);
        }
    }
    assert forall|j: int, k: int| 0 <= j < k < shorter.len() implies shorter[j] != shorter[k] by {
        let from_j = if j < at {
            j
        } else {
            j + 1
        };
        let from_k = if k < at {
            k
        } else {
            k + 1
        };
        assert(shorter[j] == blocks[from_j] && shorter[k] == blocks[from_k]);
    }
    assert forall|b: int|
        0 <= b < after.len() && (#[trigger] after[b]) != skipped implies shorter.contains(
        b as usize,
    ) by {
        assert(before[b] != skipped);
        let m = choose|m: int| 0 <= m < blocks.len() && blocks[m] == b as usize;
        if m < at {
            assert(shorter[m] == b as usize);
        } else {
            assert(shorter[m - 1] == b as usize);
        }
    }
}

/// A list of blocks stays one of the blocks unlike `skipped` when a block
/// that is unlike `skipped` before and after changes.
pub proof fn lemma_block_stays(
    blocks: Seq<usize>,
    before: Seq<Block>,
    after: Seq<Block>,
    block: usize,
    skipped: Block,
)
    requires
        lists_blocks_unlike(blocks, before, skipped),
        block < before.len(),
        after == before.update(block as int, after[block as int]),
        (before[block as int] == skipped) == (after[block as int] == skipped),
    ensures
        lists_blocks_unlike(blocks, after, skipped),
{
    assert forall|b: int|
        0 <= b < after.len() && (#[trigger] after[b]) != skipped implies blocks.contains(
        b as usize,
    ) by {
        assert(before[b] != skipped);
    }
}

} // verus!
