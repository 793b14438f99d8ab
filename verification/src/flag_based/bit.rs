use vstd::prelude::*;
use crate::Traversal;
use crate::flag_based::{FlagVec, true_from, is_first_true, none_true};
use crate::flag_based::word::{
    bit_at, lemma_test_bit, lemma_write_bit, lemma_set_upper, lemma_keep_lower, lemma_uniform,
    lemma_lowest_bit, lemma_nonzero, lemma_keep_all, lemma_one_bit_is_positive,
};

verus! {

pub type Block = u32;

pub const BITS_PER_BYTE: usize = 8;

pub const BITS_PER_BLOCK: usize = 32;

/// The number of blocks that `n` bits take up.
pub open spec fn blocks_for(n: int) -> int {
    (n + 31) / 32
}

/// What a masked read of block `idx` of the bits `s` holds at position `j`:
/// the bit `32 * idx + j` where it exists, and zero beyond the end.
pub open spec fn block_bit(s: Seq<bool>, idx: int, j: int) -> bool {
    0 <= 32 * idx + j < s.len() && s[32 * idx + j]
}

/// Whether any bit of block `idx` of the bits `s` is true.
pub open spec fn block_any(s: Seq<bool>, idx: int) -> bool {
    exists|j: int| 0 <= j < 32 && #[trigger] block_bit(s, idx, j)
}

/// A packed array of bits, stored in 32-bit blocks.
///
/// The bits of the last block that lie beyond `num_bits` are not part of the
/// value: no query reads them.
#[derive(Clone, Debug)]
pub struct BitVec {
    flags: Vec<Block>,
    num_bits: usize,
}

impl BitVec {
    /// The storage holds exactly as many blocks as the bits need.
    pub closed spec fn wf(&self) -> bool {
        self.flags.len() == blocks_for(self.num_bits as int)
    }

    /// The bits, as a sequence of booleans.
    pub closed spec fn view(&self) -> Seq<bool> {
        Seq::new(self.num_bits as nat, |i: int| bit_at(self.flags[i / 32], (i % 32) as u32))
    }

    /// The number of bits fits in a `usize`.
    pub proof fn lemma_len_fits(&self)
        ensures
            self@.len() <= usize::MAX,
    {
    }

    /// A vector of no bits.
    pub fn new() -> (r: Self)
        ensures
            r.wf(),
            r@ == Seq::<bool>::empty(),
    {
        let r = Self { flags: Vec::new(), num_bits: 0 };
        assert(r@ =~= Seq::<bool>::empty());
        return r
    }

    /// A vector of `num_bits` bits that are all `value`.
    pub fn with_bits(num_bits: usize, value: bool) -> (r: Self)
        ensures
            r.wf(),
            r@ == Seq::new(num_bits as nat, |i: int| value),
    {
        if num_bits == 0 {
            let r = Self { flags: Vec::new(), num_bits };
            assert(r@ =~= Seq::new(num_bits as nat, |i: int| value));
            return r
        }
        let value_of_blocks: Block = if value {
            Block::MAX
        } else {
            0
        };
        let num_blocks: usize = ((num_bits - 1) / BITS_PER_BLOCK) + 1;
        let r = Self { flags: vec![value_of_blocks; num_blocks], num_bits };
        proof {
            assert forall|i: int| 0 <= i < num_bits implies r@[i] == value by {
                lemma_uniform((i % 32) as u32);
            }
            assert(r@ =~= Seq::new(num_bits as nat, |i: int| value));
        }
        return r
    }

    /// The number of bits.
    pub fn num_bits(&self) -> (r: usize)
        ensures
            r == self@.len(),
    {
        return self.num_bits
    }

    /// The number of blocks that hold the bits.
    pub fn num_blocks(&self) -> (r: usize)
        requires
            self.wf(),
        ensures
            r == blocks_for(self@.len() as int),
    {
        return self.flags.len()
    }

    /// Reads bit `bit`.
    pub fn get_bit(&self, bit: usize) -> (r: bool)
        requires
            self.wf(),
            bit < self@.len(),
        ensures
            r == self@[bit as int],
    {
        let bit_idx: usize = bit % BITS_PER_BLOCK;
        let flags_idx: usize = bit / BITS_PER_BLOCK;
        proof {
            lemma_test_bit(self.flags[flags_idx as int], bit_idx as u32);
        }
        let bit: bool = (self.flags[flags_idx] & (1u32 << (bit_idx as u32))) != 0;
        return bit
    }

    /// Writes `value` to bit `bit`.
    pub fn set_bit(&mut self, bit: usize, value: bool)
        requires
            old(self).wf(),
            bit < old(self)@.len(),
        ensures
            final(self).wf(),
            final(self)@ == old(self)@.update(bit as int, value),
    {
        let bit_idx: usize = bit % BITS_PER_BLOCK;
        let flag_idx: usize = bit / BITS_PER_BLOCK;
        let value_as_num: Block = if value {
            1
        } else {
            0
        };
        let before: Block = self.flags[flag_idx];
        let cleared: Block = before & !(1u32 << (bit_idx as u32));
        self.flags[flag_idx] = cleared | (value_as_num << (bit_idx as u32));
        proof {
            assert forall|i: int| 0 <= i < self.num_bits implies self@[i] == old(self)@.update(
                bit as int,
                value,
            )[i] by {
                if i / 32 == flag_idx {
                    lemma_write_bit(before, bit_idx as u32, value_as_num, (i % 32) as u32);
                }
            }
            assert(self@ =~= old(self)@.update(bit as int, value));
        }
    }

    /// Sets bit `bit` and every bit after it, a block at a time.
    pub fn set_bit_and_all_bits_after_it_to_true(&mut self, bit: usize)
        requires
            old(self).wf(),
            bit < old(self)@.len(),
        ensures
            final(self).wf(),
            final(self)@ == Seq::new(old(self)@.len(), |j: int| j >= bit || old(self)@[j]),
    {
        let bit_idx: usize = bit % BITS_PER_BLOCK;
        let flag_idx: usize = bit / BITS_PER_BLOCK;
        let before: Block = self.flags[flag_idx];
        self.flags[flag_idx] = before | (Block::MAX << (bit_idx as u32));

        let num_blocks: usize = self.flags.len();
        for i in (flag_idx + 1)..num_blocks
            invariant
                self.num_bits == old(self).num_bits,
                self.flags.len() == num_blocks == old(self).flags.len(),
                flag_idx < num_blocks,
                self.flags[flag_idx as int] == before | (Block::MAX << (bit_idx as u32)),
                forall|k: int| 0 <= k < flag_idx ==> self.flags[k] == old(self).flags[k],
                forall|k: int| flag_idx < k < i ==> self.flags[k] == Block::MAX,
        {
            self.flags[i] = Block::MAX;
        }
        proof {
            let goal = Seq::new(old(self)@.len(), |j: int| j >= bit || old(self)@[j]);
            assert forall|j: int| 0 <= j < self.num_bits implies self@[j] == goal[j] by {
                if j / 32 == flag_idx {
                    lemma_set_upper(before, bit_idx as u32, (j % 32) as u32);
                } else if j / 32 > flag_idx {
                    lemma_uniform((j % 32) as u32);
                }
            }
            assert(self@ =~= goal);
        }
    }

    /// Appends `num_bits_to_add` bits that are all `value_of_bits`. The bits
    /// go into what is left of the last block first, and new blocks come only
    /// for the rest.
    pub fn add_bits(&mut self, num_bits_to_add: usize, value_of_bits: bool)
        requires
            old(self).wf(),
            old(self)@.len() + num_bits_to_add <= usize::MAX,
        ensures
            final(self).wf(),
            final(self)@ == old(self)@ + Seq::new(num_bits_to_add as nat, |i: int| value_of_bits),
    {
        let new_num_bits: usize = self.num_bits + num_bits_to_add;
        if new_num_bits == 0 {
            assert(self@ =~= old(self)@ + Seq::new(num_bits_to_add as nat, |i: int| value_of_bits));
            return
        }
        if num_bits_to_add == 0 {
            assert(self@ =~= old(self)@ + Seq::new(num_bits_to_add as nat, |i: int| value_of_bits));
            return
        }
        if self.num_bits == 0 {
            *self = Self::with_bits(num_bits_to_add, value_of_bits);
            assert(self@ =~= old(self)@ + Seq::new(num_bits_to_add as nat, |i: int| value_of_bits));
            return
        }
        let num_alloc_bits_in_last_flag: usize = self.num_bits - ((self.flags.len() - 1)
            * BITS_PER_BLOCK);
        let num_free_bits_in_last_flag: usize = BITS_PER_BLOCK - num_alloc_bits_in_last_flag;
        let num_bits_to_add_from_last_flag: usize = if num_bits_to_add
            <= num_free_bits_in_last_flag {
            num_bits_to_add
        } else {
            num_free_bits_in_last_flag
        };

        let len: usize = self.flags.len() - 1;
        let value_of_bits_as_num: Block = if value_of_bits {
            1
        } else {
            0
        };
        let end_in_last_flag: usize = num_alloc_bits_in_last_flag + num_bits_to_add_from_last_flag;
        for bit in num_alloc_bits_in_last_flag..end_in_last_flag
            invariant
                self.num_bits == old(self).num_bits,
                self.flags.len() == old(self).flags.len() == len + 1,
                end_in_last_flag <= 32,
                value_of_bits_as_num == (if value_of_bits { 1u32 } else { 0u32 }),
                forall|k: int| 0 <= k < len ==> self.flags[k] == old(self).flags[k],
                forall|j: u32|
                    j < num_alloc_bits_in_last_flag ==> bit_at(self.flags[len as int], j) == bit_at(
                        old(self).flags[len as int],
                        j,
                    ),
                forall|j: u32|
                    num_alloc_bits_in_last_flag <= j < bit ==> bit_at(self.flags[len as int], j)
                        == value_of_bits,
        {
            let before: Block = self.flags[len];
            let cleared: Block = before & !(1u32 << (bit as u32));
            self.flags[len] = cleared | (value_of_bits_as_num << (bit as u32));
            proof {
                assert forall|j: u32| j < 32 implies bit_at(self.flags[len as int], j) == (if j
                    == bit {
                    value_of_bits
                } else {
                    bit_at(before, j)
                }) by {
                    lemma_write_bit(before, bit as u32, value_of_bits_as_num, j);
                }
            }
        }

        if num_bits_to_add > num_free_bits_in_last_flag {
            let num_bits_to_add_from_new_flags: usize = num_bits_to_add
                - num_free_bits_in_last_flag;
            let num_new_flags: usize = ((num_bits_to_add_from_new_flags - 1) / BITS_PER_BLOCK) + 1;
            let new_num_blocks: usize = self.flags.len() + num_new_flags;
            let value_of_new_flags: Block = if value_of_bits {
                Block::MAX
            } else {
                0
            };
            self.flags.resize(new_num_blocks, value_of_new_flags);
            assert(forall|k: int| 0 <= k <= len ==> self.flags[k] == self.flags@.subrange(0, len + 1)[k]);
        }
        self.num_bits = new_num_bits;
        proof {
            let goal = old(self)@ + Seq::new(num_bits_to_add as nat, |i: int| value_of_bits);
            assert forall|i: int| 0 <= i < new_num_bits implies self@[i] == goal[i] by {
                if i / 32 > len {
                    lemma_uniform((i % 32) as u32);
                }
            }
            assert(self@ =~= goal);
        }
    }

    /// Reads block `idx_of_block` with the bits beyond the end masked to zero.
    pub fn get_block(&self, idx_of_block: usize) -> (r: Block)
        requires
            self.wf(),
            idx_of_block < blocks_for(self@.len() as int) || self@.len() == 0,
        ensures
            forall|j: u32|
                j < 32 ==> #[trigger] bit_at(r, j) == block_bit(self@, idx_of_block as int, j as int),
            (r != 0) == block_any(self@, idx_of_block as int),
    {
        if self.flags.is_empty() {
            proof {
                assert forall|j: u32| j < 32 implies !#[trigger] bit_at(0u32, j) by {
                    lemma_uniform(j);
                }
            }
            return 0
        }
        let flags: Block;
        if idx_of_block == self.flags.len() - 1 {
            let mask_out_unallocated_bits: Block;
            let there_are_unallocated_bits: bool = self.num_bits % BITS_PER_BLOCK != 0;
            if there_are_unallocated_bits {
                let num_bits_before_block: usize = BITS_PER_BLOCK * (self.flags.len() - 1);
                let idx_of_first_unalloc_bit: Block = (self.num_bits - num_bits_before_block)
                    as Block;
                proof {
                    lemma_one_bit_is_positive(idx_of_first_unalloc_bit);
                }
                mask_out_unallocated_bits = ((1u32 << idx_of_first_unalloc_bit) - 1) as Block;
                proof {
                    assert forall|j: u32| j < 32 implies #[trigger] bit_at(
                        self.flags[idx_of_block as int] & mask_out_unallocated_bits,
                        j,
                    ) == block_bit(self@, idx_of_block as int, j as int) by {
                        lemma_keep_lower(
                            self.flags[idx_of_block as int],
                            idx_of_first_unalloc_bit,
                            j,
                        );
                    }
                }
            } else {
                mask_out_unallocated_bits = Block::MAX;
                proof {
                    lemma_keep_all(self.flags[idx_of_block as int]);
                }
            }
            flags = self.flags[idx_of_block] & mask_out_unallocated_bits;
        } else {
            flags = self.flags[idx_of_block];
        }
        proof {
            assert forall|j: u32| j < 32 implies #[trigger] bit_at(flags, j) == block_bit(
                self@,
                idx_of_block as int,
                j as int,
            ) by {}
            if flags != 0 {
                lemma_lowest_bit(flags);
                assert(block_bit(self@, idx_of_block as int, flags.trailing_zeros() as int));
            }
            if block_any(self@, idx_of_block as int) {
                let j = choose|j: int| 0 <= j < 32 && #[trigger] block_bit(self@, idx_of_block as int, j);
                assert(bit_at(flags, j as u32));
                lemma_nonzero(flags, j as u32);
            }
        }
        return flags
    }

    /// The number of blocks that hold the bits.
    pub fn _get_num_blocks(&self) -> (r: usize)
        requires
            self.wf(),
        ensures
            r == blocks_for(self@.len() as int),
    {
        return self.flags.len()
    }

    /// The block that bit `bit` lies in.
    pub fn _get_block_that_contains_bit(&self, bit: usize) -> (r: usize)
        ensures
            r == bit / 32,
    {
        return bit / BITS_PER_BLOCK
    }

    /// Finds the lowest true bit, reading a block at a time.
    pub fn find_a_true_bit(&self) -> (r: Option<usize>)
        requires
            self.wf(),
        ensures
            match r {
                Some(bit) => is_first_true(self@, bit as int),
                None => none_true(self@),
            },
    {
        let num_blocks: usize = self.flags.len();
        for block in 0..num_blocks
            invariant
                self.wf(),
                num_blocks == self.flags.len(),
                forall|i: int| 0 <= i < 32 * block && i < self@.len() ==> !self@[i],
        {
            let flags: Block = self.get_block(block);
            if flags != 0 {
                let local_bit: usize = flags.trailing_zeros() as usize;
                proof {
                    lemma_lowest_bit(flags);
                    assert(block_bit(self@, block as int, local_bit as int));
                    assert forall|j: int| 0 <= j < block * 32 + local_bit implies !self@[j] by {
                        if j >= 32 * block {
                            assert(!bit_at(flags, (j - 32 * block) as u32));
                            assert(!block_bit(self@, block as int, j - 32 * block));
                        }
                    }
                }
                let bit: usize = block * BITS_PER_BLOCK + local_bit;
                return Some(bit)
            }
            proof {
                assert forall|i: int| 0 <= i < 32 * (block + 1) && i < self@.len() implies !self@[i] by {
                    if i >= 32 * block {
                        assert(!block_bit(self@, block as int, i - 32 * block));
                    }
                }
            }
        }
        return None
    }

    /// Walks the true bits in ascending order. Each call starts a walk of its
    /// own.
    pub fn true_bits<'a>(&'a self) -> (r: TrueBitsIterator<'a>)
        requires
            self.wf(),
        ensures
            r.wf(),
            r.remaining() == true_from(self@, 0),
    {
        return TrueBitsIterator::new(self)
    }
}

/// Walks the true bits of a `BitVec` in ascending order.
pub struct TrueBitsIterator<'a> {
    bits: &'a BitVec,
    bit: usize,
}

impl<'a> TrueBitsIterator<'a> {
    fn new(bits: &'a BitVec) -> (r: Self)
        requires
            bits.wf(),
        ensures
            r.wf(),
            r.remaining() == true_from(bits@, 0),
    {
        return Self { bits, bit: 0 }
    }
}

impl<'a> Traversal for TrueBitsIterator<'a> {
    type Item = usize;

    closed spec fn wf(&self) -> bool {
        self.bits.wf() && self.bit <= self.bits@.len()
    }

    closed spec fn remaining(&self) -> Seq<usize> {
        true_from(self.bits@, self.bit as int)
    }

    fn next(&mut self) -> (r: Option<usize>) {
        loop
            invariant_except_break
                self.bits == old(self).bits,
                self.wf(),
                self.remaining() == old(self).remaining(),
            ensures
                self.bits == old(self).bits,
                self.wf(),
                self.remaining() == old(self).remaining(),
                self.bit < self.bits@.len(),
                self.bits@[self.bit as int],
            decreases self.bits@.len() - self.bit,
        {
            if self.bit >= self.bits.num_bits() {
                return None
            }
            if self.bits.get_bit(self.bit) == false {
                self.bit += 1;
            } else {
                break ;
            }
        }

        let true_bit: usize = self.bit;
        self.bit += 1;
        proof {
            assert(old(self).remaining().drop_first() =~= self.remaining());
        }
        return Some(true_bit)
    }
}

impl FlagVec for BitVec {
    type TrueFlagsIter<'a> = TrueBitsIterator<'a>;

    open spec fn wf(&self) -> bool {
        BitVec::wf(self)
    }

    open spec fn view(&self) -> Seq<bool> {
        BitVec::view(self)
    }

    fn new() -> (r: Self) {
        return Self::new()
    }

    fn with_flags(num_flags: usize, value: bool) -> (r: Self) {
        return Self::with_bits(num_flags, value)
    }

    fn num_flags(&self) -> (r: usize) {
        return self.num_bits()
    }

    fn get_flag(&self, flag: usize) -> (r: bool) {
        return self.get_bit(flag)
    }

    fn set_flag(&mut self, flag: usize, value: bool) {
        self.set_bit(flag, value);
    }

    fn add_flags(&mut self, num_flags: usize, value: bool) {
        self.add_bits(num_flags, value);
    }

    fn find_a_true_flag(&self) -> (r: Option<usize>) {
        return self.find_a_true_bit()
    }

    fn true_flags<'a>(&'a self) -> (r: Self::TrueFlagsIter<'a>) {
        return self.true_bits()
    }
}

} // verus!
