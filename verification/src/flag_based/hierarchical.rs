use vstd::prelude::*;
use crate::Traversal;
use crate::flag_based::{FlagVec, true_from, is_first_true, none_true, lemma_true_from_skips};
use crate::flag_based::bit::{BITS_PER_BLOCK, Block, BitVec, blocks_for, block_bit, block_any};
use crate::flag_based::word::{
    bit_at, lemma_lowest_bit, lemma_test_bit, lemma_clear_bit, lemma_uniform,
};

verus! {

/// `upper` holds one bit for each block of `lower`, and that bit is true
/// exactly where the block holds a true bit.
pub open spec fn summarizes(upper: Seq<bool>, lower: Seq<bool>) -> bool {
    &&& upper.len() == blocks_for(lower.len() as int)
    &&& forall|i: int| 0 <= i < upper.len() ==> upper[i] == block_any(lower, i)
}

/// Writing one bit leaves every block but the one that holds it as it was.
pub proof fn lemma_update_keeps_other_blocks(s: Seq<bool>, x: int, v: bool, i: int)
    requires
        0 <= x < s.len(),
        i != x / 32,
    ensures
        block_any(s.update(x, v), i) == block_any(s, i),
{
    let t = s.update(x, v);
    if block_any(s, i) {
        let j = choose|j: int| 0 <= j < 32 && #[trigger] block_bit(s, i, j);
        assert((32 * i + j) / 32 == i);
        assert(block_bit(t, i, j));
    }
    if block_any(t, i) {
        let j = choose|j: int| 0 <= j < 32 && #[trigger] block_bit(t, i, j);
        assert((32 * i + j) / 32 == i);
        assert(block_bit(s, i, j));
    }
}

/// Where the upper level is false everywhere, so is the lower one.
pub proof fn lemma_none_true_descends(upper: Seq<bool>, lower: Seq<bool>)
    requires
        summarizes(upper, lower),
        none_true(upper),
    ensures
        none_true(lower),
{
    assert forall|x: int| 0 <= x < lower.len() implies !lower[x] by {
        assert(!block_any(lower, x / 32));
        assert(!block_bit(lower, x / 32, x % 32));
    }
}

/// The lowest true bit of the lower level lies in the block that the lowest
/// true bit of the upper level stands for, at the lowest set position of that
/// block.
pub proof fn lemma_first_true_descends(upper: Seq<bool>, lower: Seq<bool>, p: int, w: u32)
    requires
        summarizes(upper, lower),
        is_first_true(upper, p),
        forall|j: u32| j < 32 ==> #[trigger] bit_at(w, j) == block_bit(lower, p, j as int),
        (w != 0) == block_any(lower, p),
    ensures
        w != 0,
        is_first_true(lower, 32 * p + w.trailing_zeros()),
{
    lemma_lowest_bit(w);
    let t = w.trailing_zeros();
    assert(block_bit(lower, p, t as int));
    assert forall|x: int| 0 <= x < 32 * p + t implies !lower[x] by {
        if x / 32 < p {
            assert(!block_any(lower, x / 32));
            assert(!block_bit(lower, x / 32, x % 32));
        } else {
            assert(!bit_at(w, (x % 32) as u32));
            assert(!block_bit(lower, p, x % 32));
        }
    }
}

/// Level `k` of `levels` holds one bit for each block of the level below.
spec fn fits(levels: Seq<BitVec>, k: int) -> bool {
    levels[k]@.len() == blocks_for(levels[k - 1]@.len() as int)
}

/// `new` keeps the first `keep` bits of `old` and holds `v` from there on.
pub open spec fn extends(new: Seq<bool>, old: Seq<bool>, keep: int, v: bool) -> bool {
    &&& 0 <= keep <= old.len() <= new.len()
    &&& forall|i: int|
        0 <= i < new.len() ==> new[i] == (if i < keep {
            old[i]
        } else {
            v
        })
}

/// `x` divided by 32, `k` times over: the index at level `k` of the bit that
/// stands for bit `x` of level 0.
pub open spec fn ancestor(x: int, k: int) -> int
    decreases k,
{
    if k <= 0 {
        x
    } else {
        ancestor(x, k - 1) / 32
    }
}

/// Two adjacent levels that are extended with the same value stay in step,
/// given that the upper level is cut where the lower level's cut falls (for
/// true bits) or at its old end (for false bits).
pub proof fn lemma_extension_stays_summarized(
    old_upper: Seq<bool>,
    old_lower: Seq<bool>,
    new_upper: Seq<bool>,
    new_lower: Seq<bool>,
    keep_upper: int,
    keep_lower: int,
    v: bool,
)
    requires
        summarizes(old_upper, old_lower),
        extends(new_lower, old_lower, keep_lower, v),
        extends(new_upper, old_upper, keep_upper, v),
        new_upper.len() == blocks_for(new_lower.len() as int),
        v ==> keep_upper == keep_lower / 32 && keep_lower < new_lower.len(),
        !v ==> keep_lower == old_lower.len() && keep_upper == old_upper.len(),
    ensures
        summarizes(new_upper, new_lower),
{
    assert forall|i: int| 0 <= i < new_upper.len() implies new_upper[i] == block_any(
        new_lower,
        i,
    ) by {
        if i < keep_upper {
            assert(new_upper[i] == block_any(old_lower, i));
            if block_any(old_lower, i) {
                let j = choose|j: int| 0 <= j < 32 && #[trigger] block_bit(old_lower, i, j);
                assert(block_bit(new_lower, i, j));
            }
            if block_any(new_lower, i) {
                let j = choose|j: int| 0 <= j < 32 && #[trigger] block_bit(new_lower, i, j);
                assert(block_bit(old_lower, i, j));
            }
        } else if v {
            if i == keep_upper {
                assert(block_bit(new_lower, i, keep_lower % 32));
            } else {
                assert(block_bit(new_lower, i, 0));
            }
        } else {
            if block_any(new_lower, i) {
                let j = choose|j: int| 0 <= j < 32 && #[trigger] block_bit(new_lower, i, j);
                assert(false);
            }
        }
    }
}

/// A stack of bit vectors. Level 0 holds the bits themselves; each level
/// above holds one bit per block of the level below, true exactly where that
/// block holds a true bit. The topmost level fits in one block.
pub struct HierarchicalBitVec {
    levels: Vec<BitVec>,
}

impl HierarchicalBitVec {
    /// The number of levels.
    pub closed spec fn num_levels(&self) -> nat {
        self.levels.len() as nat
    }

    /// The bits of level `k`.
    pub closed spec fn level(&self, k: int) -> Seq<bool> {
        self.levels[k]@
    }

    /// The bits, as a sequence of booleans: those of level 0.
    pub open spec fn view(&self) -> Seq<bool> {
        if self.num_levels() == 0 {
            Seq::empty()
        } else {
            self.level(0)
        }
    }

    /// Level `k` summarizes the level below it.
    pub open spec fn linked(&self, k: int) -> bool {
        summarizes(self.level(k), self.level(k - 1))
    }

    /// Level `k` takes more than one block.
    pub open spec fn wide(&self, k: int) -> bool {
        self.level(k).len() > 32
    }

    /// Every level is a well-formed bit vector.
    pub closed spec fn storage_wf(&self) -> bool {
        forall|k: int| 0 <= k < self.levels.len() ==> (#[trigger] self.levels[k]).wf()
    }

    /// The levels fit together: there are bits at level 0, the topmost level
    /// is the only one that fits in a block, and each level above level 0
    /// summarizes the one below.
    pub open spec fn consistent(&self) -> bool {
        self.num_levels() > 0 ==> {
            &&& self.level(0).len() > 0
            &&& self.level(self.num_levels() - 1).len() <= 32
            &&& forall|k: int| 0 <= k < self.num_levels() - 1 ==> #[trigger] self.wide(k)
            &&& forall|k: int| 1 <= k < self.num_levels() ==> #[trigger] self.linked(k)
        }
    }

    /// The invariant of the vector.
    pub open spec fn wf(&self) -> bool {
        self.storage_wf() && self.consistent()
    }

    /// Every bit above level 0 is true exactly where the block of the level
    /// below that it stands for holds a true bit.
    pub proof fn lemma_levels_agree(&self, k: int, i: int)
        requires
            self.wf(),
            1 <= k < self.num_levels(),
            0 <= i < self.level(k).len(),
        ensures
            self.level(k)[i] == block_any(self.level(k - 1), i),
    {
        assert(self.linked(k));
    }

    /// The topmost level takes exactly one block.
    pub proof fn lemma_top_takes_one_block(&self)
        requires
            self.wf(),
            self.num_levels() > 0,
        ensures
            0 < self.level(self.num_levels() - 1).len() <= 32,
            blocks_for(self.level(self.num_levels() - 1).len() as int) == 1,
    {
        self.lemma_levels_hold_bits(self.num_levels() - 1);
    }

    /// No level is empty.
    pub proof fn lemma_levels_hold_bits(&self, k: int)
        requires
            self.wf(),
            0 <= k < self.num_levels(),
        ensures
            self.level(k).len() > 0,
        decreases k,
    {
        if k > 0 {
            self.lemma_levels_hold_bits(k - 1);
            assert(self.linked(k));
        }
    }

    /// A vector of no bits, which has no level.
    pub fn new() -> (r: Self)
        ensures
            r.wf(),
            r@ == Seq::<bool>::empty(),
            r.num_levels() == 0,
    {
        return Self { levels: Vec::new() }
    }

    /// A vector made of the given levels, as they are: nothing says that
    /// they fit together, which is for `_get_error` to find out.
    pub fn with_levels(levels: Vec<BitVec>) -> (r: Self)
        requires
            forall|k: int| 0 <= k < levels@.len() ==> (#[trigger] levels@[k]).wf(),
        ensures
            r.storage_wf(),
            r.num_levels() == levels@.len(),
            forall|k: int| 0 <= k < levels@.len() ==> r.level(k) == (#[trigger] levels@[k])@,
    {
        return Self { levels }
    }

    /// The levels, from level 0 up.
    pub fn levels(&self) -> (r: &Vec<BitVec>)
        requires
            self.wf(),
        ensures
            r@.len() == self.num_levels(),
            forall|k: int| 0 <= k < r@.len() ==> (#[trigger] r@[k]).wf() && r@[k]@ == self.level(k),
    {
        return &self.levels
    }

    /// A vector of `num_bits` bits that are all `value_of_bits`. Level 0 holds
    /// the bits, and each level above holds one bit per block of the level
    /// below, up to the first level that fits in one block.
    pub fn with_bits(num_bits: usize, value_of_bits: bool) -> (r: Self)
        ensures
            r.wf(),
            r@ == Seq::new(num_bits as nat, |i: int| value_of_bits),
    {
        if num_bits == 0 {
            let r = Self { levels: Vec::new() };
            assert(r@ =~= Seq::new(num_bits as nat, |i: int| value_of_bits));
            return r
        }
        let mut levels: Vec<BitVec> = Vec::new();
        let mut num_bits_needed_at_level: usize = num_bits;
        loop
            invariant_except_break
                num_bits_needed_at_level > 0,
                levels.len() == 0 ==> num_bits_needed_at_level == num_bits,
                levels.len() > 0 ==> num_bits_needed_at_level == blocks_for(
                    levels[levels.len() - 1]@.len() as int,
                ),
                forall|k: int| 0 <= k < levels.len() ==> levels[k]@.len() > 32,
            invariant
                num_bits > 0,
                forall|k: int| 0 <= k < levels.len() ==> (#[trigger] levels[k]).wf(),
                forall|k: int|
                    0 <= k < levels.len() ==> (#[trigger] levels[k])@ == Seq::new(
                        levels[k]@.len(),
                        |i: int| value_of_bits,
                    ),
                forall|k: int| 1 <= k < levels.len() ==> #[trigger] fits(levels@, k),
                levels.len() > 0 ==> levels[0]@.len() == num_bits,
            ensures
                levels.len() > 0,
                levels[levels.len() - 1]@.len() <= 32,
                forall|k: int| 0 <= k < levels.len() - 1 ==> levels[k]@.len() > 32,
            decreases num_bits_needed_at_level,
        {
            let ghost pushed_before = levels@;
            levels.push(BitVec::with_bits(num_bits_needed_at_level, value_of_bits));
            proof {
                assert forall|k: int| 1 <= k < levels.len() implies #[trigger] fits(levels@, k) by {
                    if k < pushed_before.len() {
                        assert(fits(pushed_before, k));
                    }
                }
            }
            if num_bits_needed_at_level <= BITS_PER_BLOCK {
                break ;
            }
            num_bits_needed_at_level = ((num_bits_needed_at_level - 1) / BITS_PER_BLOCK) + 1;
        }

        let r = Self { levels };
        proof {
            assert forall|k: int| 1 <= k < r.num_levels() implies #[trigger] r.linked(k) by {
                let upper = r.level(k);
                let lower = r.level(k - 1);
                assert(fits(r.levels@, k));
                assert(r.levels[k]@ == Seq::new(r.levels[k]@.len(), |i: int| value_of_bits));
                assert(r.levels[k - 1]@ == Seq::new(r.levels[k - 1]@.len(), |i: int| value_of_bits));
                assert forall|i: int| 0 <= i < upper.len() implies upper[i] == block_any(
                    lower,
                    i,
                ) by {
                    if value_of_bits {
                        assert(block_bit(lower, i, 0));
                    }
                }
            }
            assert forall|k: int| 0 <= k < r.num_levels() - 1 implies #[trigger] r.wide(k) by {}
        }
        return r
    }

    /// The number of bits.
    pub fn num_bits(&self) -> (r: usize)
        ensures
            r == self@.len(),
    {
        if self.levels.is_empty() {
            return 0
        }
        return self.levels[0].num_bits()
    }

    /// Reads bit `idx`.
    pub fn get_bit(&self, idx: usize) -> (r: bool)
        requires
            self.wf(),
            idx < self@.len(),
        ensures
            r == self@[idx as int],
    {
        return self.levels[0].get_bit(idx)
    }

    /// Writes `value` to bit `idx`, and then, level by level, reads the block
    /// that holds the bit just written and writes whether it holds a true bit
    /// to the bit above it.
    pub fn set_bit(&mut self, idx: usize, value: bool)
        requires
            old(self).wf(),
            idx < old(self)@.len(),
        ensures
            final(self).wf(),
            final(self)@ == old(self)@.update(idx as int, value),
            final(self).num_levels() == old(self).num_levels(),
    {
        self.levels[0].set_bit(idx, value);

        let mut level: usize = 1;
        let mut idx_of_parent_bit: usize = idx / BITS_PER_BLOCK;
        proof {
            assert forall|i: int|
                0 <= i < blocks_for(self.levels[0]@.len() as int) && i != idx_of_parent_bit implies block_any(
                self.levels[0]@,
                i,
            ) == block_any(old(self).levels[0]@, i) by {
                lemma_update_keeps_other_blocks(old(self).levels[0]@, idx as int, value, i);
            }
            assert(forall|k: int| 1 <= k < old(self).num_levels() ==> #[trigger] old(self).linked(k));
            if 1 < self.levels.len() {
                assert(old(self).linked(1));
            }
        }
        while level < self.levels.len()
            invariant
                old(self).wf(),
                idx < old(self).levels[0]@.len(),
                self.levels.len() == old(self).levels.len(),
                1 <= level <= self.levels.len(),
                self.storage_wf(),
                self.levels[0]@ == old(self).levels[0]@.update(idx as int, value),
                forall|k: int|
                    0 <= k < self.levels.len() ==> (#[trigger] self.levels[k])@.len() == old(
                        self,
                    ).levels[k]@.len(),
                forall|k: int|
                    level <= k < self.levels.len() ==> (#[trigger] self.levels[k])@ == old(
                        self,
                    ).levels[k]@,
                forall|k: int| 1 <= k < level ==> #[trigger] self.linked(k),
                level < self.levels.len() ==> idx_of_parent_bit < self.levels[level as int]@.len(),
                level < self.levels.len() ==> forall|i: int|
                    0 <= i < self.levels[level as int]@.len() && i != idx_of_parent_bit
                        ==> self.levels[level as int]@[i] == block_any(
                        self.levels[level - 1]@,
                        i,
                    ),
            decreases self.levels.len() - level,
        {
            let idx_of_child_flags: usize = idx_of_parent_bit;
            assert(old(self).linked(level as int));
            let children: Block = self.levels[level - 1].get_block(idx_of_child_flags);
            let value_of_parent_bit: bool = children != 0;
            let ghost before = self.levels[level as int]@;
            let ghost prev = *self;
            self.levels[level].set_bit(idx_of_parent_bit, value_of_parent_bit);
            proof {
                assert(forall|k: int|
                    0 <= k < self.levels.len() && k != level ==> self.levels[k] == prev.levels[k]);
                assert forall|k: int| 1 <= k < level implies #[trigger] self.linked(k) by {
                    assert(prev.linked(k));
                }
                assert(self.linked(level as int));
                if level + 1 < self.levels.len() {
                    assert(old(self).linked(level + 1));
                    assert forall|i: int|
                        0 <= i < self.levels[level + 1]@.len() && i != idx_of_parent_bit
                            / 32 implies self.levels[level + 1]@[i] == block_any(
                        self.levels[level as int]@,
                        i,
                    ) by {
                        lemma_update_keeps_other_blocks(
                            before,
                            idx_of_parent_bit as int,
                            value_of_parent_bit,
                            i,
                        );
                    }
                }
            }
            level += 1;
            idx_of_parent_bit = idx_of_parent_bit / BITS_PER_BLOCK;
        }
        proof {
            assert forall|k: int| 0 <= k < self.num_levels() - 1 implies #[trigger] self.wide(k) by {
                assert(old(self).wide(k));
            }
        }
    }

    /// Appends `num_bits` bits that are all `value`. Each level grows by the
    /// bits that the blocks of the level below have come to need; where true
    /// bits were added, every bit that stands for one of them turns true; and
    /// where the topmost level has outgrown one block, new levels go on top.
    pub fn add_bits(&mut self, num_bits: usize, value: bool)
        requires
            old(self).wf(),
            old(self)@.len() + num_bits <= usize::MAX,
        ensures
            final(self).wf(),
            final(self)@ == old(self)@ + Seq::new(num_bits as nat, |i: int| value),
    {
        if num_bits == 0 {
            assert(self@ =~= old(self)@ + Seq::new(num_bits as nat, |i: int| value));
            return
        }
        if self.levels.is_empty() {
            *self = Self::with_bits(num_bits, value);
            assert(self@ =~= old(self)@ + Seq::new(num_bits as nat, |i: int| value));
            return
        }
        let idx_of_first_new_bit_at_level_0: usize = self.levels[0].num_bits();
        let new_num_bits: usize = idx_of_first_new_bit_at_level_0 + num_bits;
        let ghost num_old_levels = self.levels.len();

        // Grow each level that cannot hold one bit per block of the level below.
        let mut level: usize = 0;
        let mut num_bits_needed_at_level: usize = new_num_bits;
        while level < self.levels.len()
            invariant_except_break
                level == 0 ==> num_bits_needed_at_level == new_num_bits,
                level > 0 ==> num_bits_needed_at_level == blocks_for(
                    self.levels[level - 1]@.len() as int,
                ),
                level > 0 ==> self.levels[0]@.len() == new_num_bits,
                forall|k: int| 1 <= k < level ==> #[trigger] fits(self.levels@, k),
            invariant
                old(self).wf(),
                num_bits > 0,
                new_num_bits == old(self).levels[0]@.len() + num_bits,
                self.levels.len() == old(self).levels.len() == num_old_levels,
                num_old_levels > 0,
                level <= self.levels.len(),
                self.storage_wf(),
                forall|k: int|
                    0 <= k < self.levels.len() ==> extends(
                        (#[trigger] self.levels[k])@,
                        old(self).levels[k]@,
                        old(self).levels[k]@.len() as int,
                        value,
                    ),
                forall|k: int|
                    level <= k < self.levels.len() ==> (#[trigger] self.levels[k])@ == old(
                        self,
                    ).levels[k]@,
            ensures
                self.levels[0]@.len() == new_num_bits,
                forall|k: int| 1 <= k < self.levels.len() ==> #[trigger] fits(self.levels@, k),
            decreases self.levels.len() - level,
        {
            let num_bits_at_level: usize = self.levels[level].num_bits();
            if num_bits_at_level >= num_bits_needed_at_level {
                proof {
                    assert(old(self).linked(level as int));
                    assert forall|k: int| 1 <= k < self.levels.len() implies #[trigger] fits(
                        self.levels@,
                        k,
                    ) by {
                        if k > level {
                            assert(old(self).linked(k));
                        }
                    }
                }
                break ;
            }
            let ghost prev = *self;
            proof {
                self.levels[level as int].lemma_len_fits();
            }
            self.levels[level].add_bits(num_bits_needed_at_level - num_bits_at_level, value);
            proof {
                assert(forall|k: int|
                    0 <= k < self.levels.len() && k != level ==> self.levels[k] == prev.levels[k]);
                assert forall|k: int| 1 <= k <= level implies #[trigger] fits(self.levels@, k) by {
                    if k < level {
                        assert(fits(prev.levels@, k));
                    }
                }
            }
            num_bits_needed_at_level = self.levels[level].num_blocks();
            level += 1;
        }

        // Where true bits were added, every bit that stands for a new bit turns true.
        if value == true {
            let mut level: usize = 0;
            let mut idx_of_bit: usize = idx_of_first_new_bit_at_level_0;
            while level < self.levels.len()
                invariant
                    value,
                    old(self).wf(),
                    self.levels.len() == old(self).levels.len() == num_old_levels,
                    level <= self.levels.len(),
                    self.storage_wf(),
                    idx_of_bit == ancestor(idx_of_first_new_bit_at_level_0 as int, level as int),
                    idx_of_first_new_bit_at_level_0 == old(self).levels[0]@.len(),
                    self.levels[0]@.len() == new_num_bits > idx_of_first_new_bit_at_level_0,
                    forall|k: int| 1 <= k < self.levels.len() ==> #[trigger] fits(self.levels@, k),
                    level < self.levels.len() ==> idx_of_bit <= old(self).levels[level as int]@.len()
                        && idx_of_bit < self.levels[level as int]@.len(),
                    forall|k: int|
                        0 <= k < level ==> extends(
                            (#[trigger] self.levels[k])@,
                            old(self).levels[k]@,
                            ancestor(idx_of_first_new_bit_at_level_0 as int, k),
                            value,
                        ),
                    forall|k: int|
                        level <= k < self.levels.len() ==> extends(
                            (#[trigger] self.levels[k])@,
                            old(self).levels[k]@,
                            old(self).levels[k]@.len() as int,
                            value,
                        ),
                    forall|k: int|
                        0 <= k < level ==> #[trigger] ancestor(
                            idx_of_first_new_bit_at_level_0 as int,
                            k,
                        ) < self.levels[k]@.len(),
                decreases self.levels.len() - level,
            {
                let ghost prev = *self;
                self.levels[level].set_bit_and_all_bits_after_it_to_true(idx_of_bit);
                proof {
                    assert(forall|k: int|
                        0 <= k < self.levels.len() && k != level ==> self.levels[k]
                            == prev.levels[k]);
                    assert forall|k: int| 1 <= k < self.levels.len() implies #[trigger] fits(
                        self.levels@,
                        k,
                    ) by {
                        assert(fits(prev.levels@, k));
                    }
                    assert(extends(
                        prev.levels[level as int]@,
                        old(self).levels[level as int]@,
                        old(self).levels[level as int]@.len() as int,
                        value,
                    ));
                    assert(extends(
                        self.levels[level as int]@,
                        old(self).levels[level as int]@,
                        idx_of_bit as int,
                        value,
                    ));
                    if level + 1 < self.levels.len() {
                        assert(old(self).linked(level + 1));
                        assert(fits(self.levels@, level + 1));
                    }
                    assert(ancestor(idx_of_first_new_bit_at_level_0 as int, level + 1)
                        == idx_of_bit / 32);
                }
                level += 1;
                idx_of_bit = idx_of_bit / BITS_PER_BLOCK;
            }
        }
        proof {
            let first = idx_of_first_new_bit_at_level_0 as int;
            assert forall|k: int| 1 <= k < self.num_levels() implies #[trigger] self.linked(k) by {
                assert(old(self).linked(k));
                assert(fits(self.levels@, k));
                if value {
                    lemma_extension_stays_summarized(
                        old(self).levels[k]@,
                        old(self).levels[k - 1]@,
                        self.levels[k]@,
                        self.levels[k - 1]@,
                        ancestor(first, k),
                        ancestor(first, k - 1),
                        value,
                    );
                } else {
                    lemma_extension_stays_summarized(
                        old(self).levels[k]@,
                        old(self).levels[k - 1]@,
                        self.levels[k]@,
                        self.levels[k - 1]@,
                        old(self).levels[k]@.len() as int,
                        old(self).levels[k - 1]@.len() as int,
                        value,
                    );
                }
            }
            assert forall|k: int| 0 <= k < self.num_levels() - 1 implies #[trigger] self.wide(k) by {
                assert(old(self).wide(k));
            }
            assert(self.levels[0]@ =~= old(self)@ + Seq::new(num_bits as nat, |i: int| value));
        }

        // Where the topmost level has outgrown one block, put levels on top of it.
        let top_level: &BitVec = &self.levels[self.levels.len() - 1];
        if top_level.num_blocks() > 1 {
            let mut level: usize = self.levels.len();
            loop
                invariant_except_break
                    self.wide(level - 1),
                    level == self.levels.len(),
                invariant
                    level >= 1,
                    self.levels.len() >= 1,
                    self.storage_wf(),
                    self.levels[0]@ == old(self)@ + Seq::new(num_bits as nat, |i: int| value),
                    forall|k: int| 1 <= k < self.num_levels() ==> #[trigger] self.linked(k),
                    forall|k: int| 0 <= k < self.num_levels() - 1 ==> #[trigger] self.wide(k),
                ensures
                    self.level(self.num_levels() - 1).len() <= 32,
                decreases self.levels[level - 1]@.len(),
            {
                let num_bits_needed_to_fit_items: usize = self.levels[level - 1].num_blocks();
                let mut new_level: BitVec = BitVec::with_bits(num_bits_needed_to_fit_items, value);
                for idx_of_parent_bit in 0..num_bits_needed_to_fit_items
                    invariant
                        level == self.levels.len(),
                        level >= 1,
                        self.storage_wf(),
                        new_level.wf(),
                        new_level@.len() == num_bits_needed_to_fit_items == blocks_for(
                            self.levels[level - 1]@.len() as int,
                        ),
                        forall|i: int|
                            0 <= i < idx_of_parent_bit ==> new_level@[i] == block_any(
                                self.levels[level - 1]@,
                                i,
                            ),
                {
                    let idx_of_child_flags: usize = idx_of_parent_bit;
                    let do_child_flags_have_a_one: bool = self.levels[level - 1].get_block(
                        idx_of_child_flags,
                    ) != 0;
                    new_level.set_bit(idx_of_parent_bit, do_child_flags_have_a_one);
                }
                let ghost prev = *self;
                self.levels.push(new_level);
                proof {
                    assert(forall|k: int| 0 <= k < level ==> self.levels[k] == prev.levels[k]);
                    assert forall|k: int| 1 <= k < self.num_levels() implies #[trigger] self.linked(
                        k,
                    ) by {
                        if k < level {
                            assert(prev.linked(k));
                        }
                    }
                    assert forall|k: int| 0 <= k < self.num_levels() - 1 implies #[trigger] self.wide(
                        k,
                    ) by {
                        if k < level - 1 {
                            assert(prev.wide(k));
                        }
                    }
                }
                if num_bits_needed_to_fit_items <= BITS_PER_BLOCK {
                    break ;
                }
                level += 1;
            }
        }
    }

    /// Where level `k` is false everywhere, so is level 0.
    proof fn lemma_none_true_at_bottom(&self, k: int)
        requires
            self.wf(),
            0 <= k < self.num_levels(),
            none_true(self.level(k)),
        ensures
            none_true(self@),
        decreases k,
    {
        if k > 0 {
            assert(self.linked(k));
            lemma_none_true_descends(self.level(k), self.level(k - 1));
            self.lemma_none_true_at_bottom(k - 1);
        }
    }

    /// Finds the lowest true bit, reading one block per level from the top
    /// down.
    pub fn find_a_true_bit(&self) -> (r: Option<usize>)
        requires
            self.wf(),
        ensures
            match r {
                Some(bit) => is_first_true(self@, bit as int),
                None => none_true(self@),
            },
    {
        if self.levels.is_empty() {
            return None
        }
        let top_level: &BitVec = &self.levels[self.levels.len() - 1];
        let top_flags: Block = top_level.get_block(0);
        if top_flags == 0 {
            proof {
                let top = self.level(self.num_levels() - 1);
                assert forall|x: int| 0 <= x < top.len() implies !top[x] by {
                    assert(!block_bit(top, 0, x));
                }
                self.lemma_none_true_at_bottom(self.num_levels() - 1);
            }
            return None
        }
        let mut level: usize = self.levels.len() - 1;
        let mut idx_of_parent_bit: usize = top_flags.trailing_zeros() as usize;
        proof {
            lemma_lowest_bit(top_flags);
            let top = self.level(level as int);
            assert(block_bit(top, 0, idx_of_parent_bit as int));
            assert forall|x: int| 0 <= x < idx_of_parent_bit implies !top[x] by {
                assert(!bit_at(top_flags, x as u32));
                assert(!block_bit(top, 0, x));
            }
        }
        loop
            invariant
                self.wf(),
                level < self.levels.len(),
                is_first_true(self.level(level as int), idx_of_parent_bit as int),
            decreases level,
        {
            if level <= 0 {
                return Some(idx_of_parent_bit)
            }
            let idx_of_child_flags: usize = idx_of_parent_bit;
            proof {
                assert(self.linked(level as int));
            }
            level -= 1;
            let child_flags: Block = self.levels[level].get_block(idx_of_child_flags);
            proof {
                self.levels[level as int].lemma_len_fits();
                lemma_first_true_descends(
                    self.level(level + 1),
                    self.level(level as int),
                    idx_of_child_flags as int,
                    child_flags,
                );
            }
            idx_of_parent_bit = idx_of_child_flags * BITS_PER_BLOCK
                + child_flags.trailing_zeros() as usize;
        }
    }

    /// The number of bits fits in a `usize`.
    pub proof fn lemma_len_fits(&self)
        ensures
            self@.len() <= usize::MAX,
    {
        if self.levels.len() > 0 {
            self.levels[0].lemma_len_fits();
        }
    }

    /// A true bit of level 0 has a true bit standing for it at every level.
    proof fn lemma_true_bit_shows_at_every_level(&self, x: int, k: int)
        requires
            self.wf(),
            0 <= x < self@.len(),
            self@[x],
            0 <= k < self.num_levels(),
        ensures
            0 <= ancestor(x, k) < self.level(k).len(),
            self.level(k)[ancestor(x, k)],
        decreases k,
    {
        if k > 0 {
            self.lemma_true_bit_shows_at_every_level(x, k - 1);
            assert(self.linked(k));
            let c = ancestor(x, k - 1);
            assert(block_bit(self.level(k - 1), c / 32, c % 32));
        }
    }

    /// Walks the true bits in ascending order, skipping every block whose
    /// bit at the level above is false.
    pub fn true_bits<'a>(&'a self) -> (r: TrueBitsIterator<'a>)
        requires
            self.wf(),
        ensures
            r.wf(),
            r.remaining() == true_from(self@, 0),
    {
        return TrueBitsIterator::new(self)
    }
}

/// The frame `(level, block)` of a traversal stands for the bits of level 0
/// below that block; `covers` holds of the indices of those bits.
pub open spec fn covers(frame: (usize, usize), x: int) -> bool {
    x >= 0 && ancestor(x, frame.0 + 1) == frame.1
}

/// The block of level 0 that a frame of level 0 stands for holds the indices
/// that the frame covers.
pub proof fn lemma_covers_at_bottom(block: usize, x: int)
    ensures
        covers((0usize, block), x) == (32 * block <= x < 32 * block + 32),
{
    assert(ancestor(x, 1) == ancestor(x, 0) / 32);
}

/// The ancestors of a smaller index are not larger.
pub proof fn lemma_ancestor_is_monotonic(x: int, y: int, k: int)
    requires
        0 <= x <= y,
    ensures
        0 <= ancestor(x, k) <= ancestor(y, k),
    decreases k,
{
    if k > 0 {
        lemma_ancestor_is_monotonic(x, y, k - 1);
    }
}

spec fn frame_ok(bits: HierarchicalBitVec, frame: (usize, usize)) -> bool {
    &&& frame.0 < bits.num_levels()
    &&& frame.1 < blocks_for(bits.level(frame.0 as int).len() as int)
    &&& block_any(bits.level(frame.0 as int), frame.1 as int)
}

spec fn frames_valid(bits: HierarchicalBitVec, stack: Seq<(usize, usize)>) -> bool {
    forall|t: int| 0 <= t < stack.len() ==> frame_ok(bits, #[trigger] stack[t])
}

spec fn frames_from(stack: Seq<(usize, usize)>, bound: int) -> bool {
    forall|t: int, x: int| 0 <= t < stack.len() && #[trigger] covers(stack[t], x) ==> x >= bound
}

spec fn frames_ordered(stack: Seq<(usize, usize)>) -> bool {
    forall|t1: int, t2: int, x: int, y: int|
        0 <= t1 < t2 < stack.len() && #[trigger] covers(stack[t2], x) && #[trigger] covers(
            stack[t1],
            y,
        ) ==> x < y
}

spec fn in_word(flags: u32, base: int, x: int) -> bool {
    base <= x < base + 32 && bit_at(flags, (x - base) as u32)
}

spec fn covered(stack: Seq<(usize, usize)>, x: int) -> bool {
    exists|t: int| 0 <= t < stack.len() && #[trigger] covers(stack[t], x)
}

spec fn is_true(s: Seq<bool>, x: int) -> bool {
    0 <= x < s.len() && s[x]
}

spec fn word_ok(s: Seq<bool>, flags: u32, base: int, cursor: int) -> bool {
    &&& 0 <= base
    &&& forall|j: u32|
        j < 32 && #[trigger] bit_at(flags, j) ==> cursor <= base + j && is_true(s, base + j)
}

spec fn complete(s: Seq<bool>, stack: Seq<(usize, usize)>, flags: u32, base: int, cursor: int) -> bool {
    forall|x: int|
        cursor <= x && #[trigger] is_true(s, x) ==> in_word(flags, base, x) || covered(stack, x)
}

/// The children of a frame, pushed for the set bits of its block from the
/// highest down, take the place of the frame.
proof fn lemma_children_replace_frame(
    bits: HierarchicalBitVec,
    before: Seq<(usize, usize)>,
    after: Seq<(usize, usize)>,
    flags: u32,
    cursor: int,
)
    requires
        bits.wf(),
        before.len() > 0,
        frames_valid(bits, before),
        frames_from(before, cursor),
        frames_ordered(before),
        before.last().0 > 0,
        forall|j: u32|
            j < 32 ==> #[trigger] bit_at(flags, j) == block_bit(
                bits.level(before.last().0 as int),
                before.last().1 as int,
                j as int,
            ),
        after.len() >= before.len() - 1,
        forall|t: int| 0 <= t < before.len() - 1 ==> after[t] == before[t],
        forall|t: int|
            before.len() - 1 <= t < after.len() ==> (#[trigger] after[t]).0 == before.last().0 - 1
                && after[t].1 / 32 == before.last().1 && bit_at(flags, (after[t].1 % 32) as u32),
        forall|t1: int, t2: int|
            before.len() - 1 <= t1 < t2 < after.len() ==> (#[trigger] after[t1]).1 > (
            #[trigger] after[t2]).1,
        forall|j: u32|
            j < 32 && #[trigger] bit_at(flags, j) ==> exists|t: int|
                before.len() - 1 <= t < after.len() && #[trigger] after[t] == (
                    (before.last().0 - 1) as usize,
                    (32 * before.last().1 + j) as usize,
                ),
    ensures
        frames_valid(bits, after),
        frames_from(after, cursor),
        frames_ordered(after),
        forall|x: int|
            #[trigger] is_true(bits@, x) && covered(before, x) ==> covered(after, x),
{
    let n = before.len() - 1;
    let parent = before.last();
    let lv = parent.0 as int;
    let ix = parent.1 as int;
    assert(frame_ok(bits, before[n]));
    assert(bits.linked(lv));
    assert forall|t: int| 0 <= t < after.len() implies frame_ok(bits, #[trigger] after[t]) by {
        if t < n {
            assert(frame_ok(bits, before[t]));
        } else {
            let c = after[t].1 as int;
            assert(block_bit(bits.level(lv), ix, c % 32));
        }
    }
    assert forall|t: int, x: int| n <= t < after.len() && #[trigger] covers(
        after[t],
        x,
    ) implies covers(parent, x) by {
        assert(ancestor(x, lv + 1) == ancestor(x, lv) / 32);
    }
    assert forall|t: int, x: int| 0 <= t < after.len() && #[trigger] covers(
        after[t],
        x,
    ) implies x >= cursor by {
        if t < n {
            assert(covers(before[t], x));
        } else {
            assert(covers(before[n], x));
        }
    }
    assert forall|t1: int, t2: int, x: int, y: int|
        0 <= t1 < t2 < after.len() && #[trigger] covers(after[t2], x) && #[trigger] covers(
            after[t1],
            y,
        ) implies x < y by {
        if t2 < n {
            assert(covers(before[t2], x) && covers(before[t1], y));
        } else if t1 < n {
            assert(covers(before[n], x) && covers(before[t1], y));
        } else {
            if x >= y {
                lemma_ancestor_is_monotonic(y, x, lv);
            }
        }
    }
    assert forall|x: int| #[trigger] is_true(bits@, x) && covered(before, x) implies covered(
        after,
        x,
    ) by {
        let t = choose|t: int| 0 <= t < before.len() && #[trigger] covers(before[t], x);
        if t < n {
            assert(covers(after[t], x));
        } else {
            bits.lemma_true_bit_shows_at_every_level(x, lv);
            let c = ancestor(x, lv);
            assert(ancestor(x, lv + 1) == c / 32);
            assert(block_bit(bits.level(lv), ix, c % 32));
            assert(bit_at(flags, (c % 32) as u32));
            let u = choose|u: int|
                n <= u < after.len() && #[trigger] after[u] == (
                    (lv - 1) as usize,
                    (32 * ix + (c % 32) as u32) as usize,
                );
            assert(covers(after[u], x));
        }
    }
}

/// Walks the true bits of a `HierarchicalBitVec` in ascending order.
///
/// The stack holds the blocks that are still to be opened, the lowest on
/// top; `flags` holds what is left of the block of level 0 that is open.
pub struct TrueBitsIterator<'a> {
    bits: &'a HierarchicalBitVec,
    stack: Vec<(usize, usize)>,
    flags: Block,
    base_global_idx_of_flags: usize,
    cursor: Ghost<int>,
}

impl<'a> TrueBitsIterator<'a> {
    fn new(bits: &'a HierarchicalBitVec) -> (r: Self)
        requires
            bits.wf(),
        ensures
            r.wf(),
            r.remaining() == true_from(bits@, 0),
    {
        let mut stack: Vec<(usize, usize)> = Vec::new();
        if !bits.levels.is_empty() && bits.levels[bits.levels.len() - 1].get_block(0) != 0 {
            stack.push((bits.levels.len() - 1, 0));
        }
        let r = Self { bits, stack, flags: 0, base_global_idx_of_flags: 0, cursor: Ghost(0) };
        proof {
            bits.lemma_len_fits();
            assert forall|j: u32| j < 32 implies !#[trigger] bit_at(0u32, j) by {
                lemma_uniform(j);
            }
            if bits.levels.len() > 0 {
                let top = bits.num_levels() - 1;
                if r.stack.len() == 0 {
                    assert forall|x: int| 0 <= x < bits.level(top).len() implies !bits.level(
                        top,
                    )[x] by {
                        assert(!block_bit(bits.level(top), 0, x));
                    }
                    bits.lemma_none_true_at_bottom(top);
                } else {
                    assert forall|x: int| 0 <= x && #[trigger] is_true(bits@, x) implies covered(
                        r.stack@,
                        x,
                    ) by {
                        bits.lemma_true_bit_shows_at_every_level(x, top);
                        assert(ancestor(x, top + 1) == ancestor(x, top) / 32);
                        assert(covers(r.stack@[0], x));
                    }
                }
            }
        }
        return r
    }
}

impl<'a> Traversal for TrueBitsIterator<'a> {
    type Item = usize;

    closed spec fn wf(&self) -> bool {
        &&& self.bits.wf()
        &&& 0 <= self.cursor@ <= self.bits@.len() <= usize::MAX
        &&& frames_valid(*self.bits, self.stack@)
        &&& frames_from(self.stack@, self.cursor@)
        &&& frames_ordered(self.stack@)
        &&& word_ok(self.bits@, self.flags, self.base_global_idx_of_flags as int, self.cursor@)
        &&& self.flags != 0 ==> frames_from(self.stack@, self.base_global_idx_of_flags + 32)
        &&& complete(
            self.bits@,
            self.stack@,
            self.flags,
            self.base_global_idx_of_flags as int,
            self.cursor@,
        )
    }

    closed spec fn remaining(&self) -> Seq<usize> {
        true_from(self.bits@, self.cursor@)
    }

    fn next(&mut self) -> (r: Option<usize>) {
        if self.flags == 0 {
            if self.stack.is_empty() {
                proof {
                    assert forall|x: int| self.cursor@ <= x < self.bits@.len() implies !self.bits@[x] by {
                        if is_true(self.bits@, x) {
                            assert(in_word(self.flags, self.base_global_idx_of_flags as int, x)
                                || covered(self.stack@, x));
                            lemma_uniform((x - self.base_global_idx_of_flags) as u32);
                        }
                    }
                    lemma_true_from_skips(self.bits@, self.cursor@, self.bits@.len() as int);
                }
                return None
            }
            while !self.stack.is_empty()
                invariant_except_break
                    self.flags == 0,
                    self.stack.len() > 0,
                invariant
                    self.bits == old(self).bits,
                    self.cursor == old(self).cursor,
                    self.wf(),
                ensures
                    self.flags != 0,
                decreases self.stack[self.stack.len() - 1].0,
            {
                let ghost before = self.stack@;
                let (level, idx_of_flags): (usize, usize) = self.stack.pop().unwrap();
                assert(frame_ok(*self.bits, before[before.len() - 1]));
                proof {
                    assert forall|j: u32| j < 32 implies !#[trigger] bit_at(0u32, j) by {
                        lemma_uniform(j);
                    }
                }
                if level == 0 {
                    self.flags = self.bits.levels[0].get_block(idx_of_flags);
                    proof {
                        self.bits.levels[0].lemma_len_fits();
                    }
                    self.base_global_idx_of_flags = idx_of_flags * BITS_PER_BLOCK;
                    proof {
                        let base = self.base_global_idx_of_flags as int;
                        assert forall|j: u32| j < 32 && #[trigger] bit_at(self.flags, j) implies self.cursor@
                            <= base + j && is_true(self.bits@, base + j) by {
                            assert(block_bit(self.bits@, idx_of_flags as int, j as int));
                            lemma_covers_at_bottom(idx_of_flags, base + j);
                            assert(covers(before[before.len() - 1], base + j));
                        }
                        lemma_covers_at_bottom(idx_of_flags, base + 31);
                        assert(covers(before[before.len() - 1], base + 31));
                        assert forall|t: int, x: int|
                            0 <= t < self.stack@.len() && #[trigger] covers(
                                self.stack@[t],
                                x,
                            ) implies x >= base + 32 by {
                            assert(covers(before[t], x));
                        }
                        assert forall|t: int, x: int|
                            0 <= t < self.stack@.len() && #[trigger] covers(
                                self.stack@[t],
                                x,
                            ) implies x >= self.cursor@ by {
                            assert(covers(before[t], x));
                        }
                        assert forall|t1: int, t2: int, x: int, y: int|
                            0 <= t1 < t2 < self.stack@.len() && #[trigger] covers(
                                self.stack@[t2],
                                x,
                            ) && #[trigger] covers(self.stack@[t1], y) implies x < y by {
                            assert(covers(before[t2], x) && covers(before[t1], y));
                        }
                        assert forall|x: int|
                            self.cursor@ <= x && #[trigger] is_true(self.bits@, x) implies in_word(
                            self.flags,
                            base,
                            x,
                        ) || covered(self.stack@, x) by {
                            assert(covered(before, x));
                            let t = choose|t: int|
                                0 <= t < before.len() && #[trigger] covers(before[t], x);
                            if t < before.len() - 1 {
                                assert(covers(self.stack@[t], x));
                            } else {
                                lemma_covers_at_bottom(idx_of_flags, x);
                                assert(block_bit(self.bits@, idx_of_flags as int, x - base));
                                assert(bit_at(self.flags, (x - base) as u32));
                            }
                        }
                    }
                    break ;
                }
                let flags: Block = self.bits.levels[level].get_block(idx_of_flags);
                proof {
                    self.bits.levels[level as int].lemma_len_fits();
                }
                let base_idx: usize = idx_of_flags * BITS_PER_BLOCK;

                let mut bit: usize = BITS_PER_BLOCK;
                while bit > 0
                    invariant
                        bit <= 32,
                        level > 0,
                        self.bits == old(self).bits,
                        self.cursor == old(self).cursor,
                        self.flags == 0,
                        base_idx == idx_of_flags * 32,
                        before.len() > 0,
                        before.last() == (level, idx_of_flags),
                        forall|j: u32|
                            j < 32 ==> #[trigger] bit_at(flags, j) == block_bit(
                                self.bits.level(level as int),
                                idx_of_flags as int,
                                j as int,
                            ),
                        self.bits.level(level as int).len() <= usize::MAX,
                        self.stack@.len() >= before.len() - 1,
                        forall|t: int| 0 <= t < before.len() - 1 ==> self.stack@[t] == before[t],
                        forall|t: int|
                            before.len() - 1 <= t < self.stack@.len() ==> (
                            #[trigger] self.stack@[t]).0 == level - 1 && self.stack@[t].1 / 32
                                == idx_of_flags && bit_at(flags, (self.stack@[t].1 % 32) as u32)
                                && self.stack@[t].1 % 32 >= bit,
                        forall|t1: int, t2: int|
                            before.len() - 1 <= t1 < t2 < self.stack@.len() ==> (
                            #[trigger] self.stack@[t1]).1 > (#[trigger] self.stack@[t2]).1,
                        forall|j: u32|
                            bit <= j < 32 && #[trigger] bit_at(flags, j) ==> exists|t: int|
                                before.len() - 1 <= t < self.stack@.len() && #[trigger] self.stack@[t]
                                    == ((level - 1) as usize, (32 * idx_of_flags + j) as usize),
                    decreases bit,
                {
                    bit -= 1;
                    proof {
                        lemma_test_bit(flags, bit as u32);
                    }
                    if (flags & (1u32 << (bit as u32))) != 0 {
                        let level: usize = level - 1;
                        assert(block_bit(
                            self.bits.level(level + 1),
                            idx_of_flags as int,
                            bit as int,
                        ));
                        let idx_of_child_flags: usize = base_idx + bit;
                        let ghost pushed_before = self.stack@;
                        self.stack.push((level, idx_of_child_flags));
                        proof {
                            let top = self.stack@.len() - 1;
                            assert(self.stack@[top] == (level, idx_of_child_flags));
                            assert forall|j: u32|
                                bit <= j < 32 && #[trigger] bit_at(flags, j) implies exists|t: int|
                                before.len() - 1 <= t < self.stack@.len() && #[trigger] self.stack@[t]
                                    == (level, (32 * idx_of_flags + j) as usize) by {
                                if j == bit {
                                    assert(self.stack@[top] == (
                                        level,
                                        (32 * idx_of_flags + j) as usize,
                                    ));
                                } else {
                                    let t = choose|t: int|
                                        before.len() - 1 <= t < pushed_before.len()
                                            && #[trigger] pushed_before[t] == (
                                            level,
                                            (32 * idx_of_flags + j) as usize,
                                        );
                                    assert(self.stack@[t] == pushed_before[t]);
                                }
                            }
                        }
                    }
                }
                proof {
                    lemma_children_replace_frame(
                        *self.bits,
                        before,
                        self.stack@,
                        flags,
                        self.cursor@,
                    );
                    let top = self.stack@.len() - 1;
                    assert(frame_ok(*self.bits, before[before.len() - 1]));
                    lemma_lowest_bit(flags);
                    assert forall|x: int|
                        self.cursor@ <= x && #[trigger] is_true(self.bits@, x) implies in_word(
                        self.flags,
                        self.base_global_idx_of_flags as int,
                        x,
                    ) || covered(self.stack@, x) by {
                        assert(covered(before, x));
                    }
                }
            }
        }
        proof {
            lemma_lowest_bit(self.flags);
        }
        let flags_idx_of_next_true_bit: usize = self.flags.trailing_zeros() as usize;
        let ghost flags_before = self.flags;
        self.flags = self.flags & !(1u32 << (flags_idx_of_next_true_bit as u32));
        let global_idx_of_next_true_bit: usize = self.base_global_idx_of_flags
            + flags_idx_of_next_true_bit;
        proof {
            let base = self.base_global_idx_of_flags as int;
            let found = global_idx_of_next_true_bit as int;
            let start = self.cursor@;
            assert forall|j: u32| j < 32 implies #[trigger] bit_at(self.flags, j) == (j
                != flags_idx_of_next_true_bit && bit_at(flags_before, j)) by {
                lemma_clear_bit(flags_before, flags_idx_of_next_true_bit as u32, j);
            }
            assert(is_true(self.bits@, found));
            assert forall|x: int| start <= x < found implies !self.bits@[x] by {
                if is_true(self.bits@, x) {
                    assert(in_word(flags_before, base, x) || covered(self.stack@, x));
                    if covered(self.stack@, x) {
                        let t = choose|t: int|
                            0 <= t < self.stack@.len() && #[trigger] covers(self.stack@[t], x);
                    }
                }
            }
            lemma_true_from_skips(self.bits@, start, found);
            self.cursor = Ghost(found + 1);
            assert forall|x: int|
                self.cursor@ <= x && #[trigger] is_true(self.bits@, x) implies in_word(
                self.flags,
                base,
                x,
            ) || covered(self.stack@, x) by {
                assert(in_word(flags_before, base, x) || covered(self.stack@, x));
            }
            assert forall|t: int, x: int|
                0 <= t < self.stack@.len() && #[trigger] covers(
                    self.stack@[t],
                    x,
                ) implies x >= self.cursor@ by {}
            assert(old(self).remaining().drop_first() =~= self.remaining());
        }
        return Some(global_idx_of_next_true_bit)
    }
}

impl FlagVec for HierarchicalBitVec {
    type TrueFlagsIter<'a> = TrueBitsIterator<'a>;

    open spec fn wf(&self) -> bool {
        HierarchicalBitVec::wf(self)
    }

    open spec fn view(&self) -> Seq<bool> {
        HierarchicalBitVec::view(self)
    }

    /// A vector of no bits, which has no level.
    fn new() -> (r: Self)
        ensures
            r.num_levels() == 0,
    {
        return Self::new()
    }

    fn with_flags(num_flags: usize, value: bool) -> (r: Self) {
        return Self::with_bits(num_flags, value)
    }

    fn num_flags(&self) -> (r: usize) {
        return self.num_bits()
    }

    fn get_flag(&self, flag: usize) -> (r: bool) {
        return self.get_bit(flag)
    }

    fn set_flag(&mut self, flag: usize, value: bool) {
        self.set_bit(flag, value);
    }

    fn add_flags(&mut self, num_flags: usize, value: bool) {
        self.add_bits(num_flags, value);
    }

    fn find_a_true_flag(&self) -> (r: Option<usize>) {
        return self.find_a_true_bit()
    }

    fn true_flags<'a>(&'a self) -> (r: Self::TrueFlagsIter<'a>) {
        return self.true_bits()
    }
}

/// The number of bits of level 0 that one bit of level `k` stands for: 32 to
/// the power of `k`.
pub open spec fn span(k: nat) -> nat
    decreases k,
{
    if k == 0 {
        1
    } else {
        32 * span((k - 1) as nat)
    }
}

/// The number of bits that a level needs where each of its bits stands for
/// `per_bit` bits of level 0 and level 0 holds `num_bits` bits.
pub open spec fn bits_needed(num_bits: int, per_bit: int) -> int {
    (num_bits - 1) / per_bit + 1
}

/// A span is at least one.
pub proof fn lemma_span_is_positive(k: nat)
    ensures
        span(k) >= 1,
    decreases k,
{
    if k > 0 {
        lemma_span_is_positive((k - 1) as nat);
    }
}

/// A level that is as large as `num_bits` bits need holds one bit per block
/// of such a level below it.
pub proof fn lemma_bits_needed_by_level(num_bits: int, k: nat)
    requires
        num_bits >= 1,
        k >= 1,
    ensures
        bits_needed(num_bits, span(k) as int) == blocks_for(
            bits_needed(num_bits, span((k - 1) as nat) as int),
        ),
{
    let below = span((k - 1) as nat) as int;
    lemma_span_is_positive((k - 1) as nat);
    vstd::arithmetic::div_mod::lemma_div_denominator(num_bits - 1, below, 32);
    assert(below * 32 == span(k)) by (nonlinear_arith)
        requires
            span(k) == 32 * below,
    ;
}

/// As many bits as `num_bits` bits need are enough for them.
pub proof fn lemma_bits_needed_are_enough(num_bits: int, per_bit: int)
    requires
        num_bits >= 1,
        per_bit >= 1,
    ensures
        num_bits <= bits_needed(num_bits, per_bit) * per_bit,
{
    vstd::arithmetic::div_mod::lemma_fundamental_div_mod(num_bits - 1, per_bit);
    vstd::arithmetic::div_mod::lemma_mod_bound(num_bits - 1, per_bit);
    assert(((num_bits - 1) / per_bit + 1) * per_bit == per_bit * ((num_bits - 1) / per_bit)
        + per_bit) by (nonlinear_arith);
}

/// What a check of the levels against each other may find.
#[derive(Clone, Copy, Debug)]
pub enum _InternalStateError {
    LevelsIsAllocatedButLevelZeroHasZeroBits,
    TopmostLevelHasMoreThanOneFlag,
    LevelContainsLessBitsThanLevelZero {
        level: usize,
        max_num_bits_level_can_encompass: usize,
        num_bits_level_zero_encompasses: usize,
    },
    LevelEncompassesMoreBitsThanAreNeededToFitNumBits {
        level: usize,
        min_num_bits_needed_to_fit_num_bits_at_level: usize,
        num_bits_level_zero_encompasses: usize,
    },
    ParentBitDoesntMatchChildBlock {
        idx_of_parent_bit: usize,
        parent_bit: Block,
        parent_level: usize,
        idx_of_child_flags: usize,
        child_flags: Block,
        child_level: usize,
    },
}

impl HierarchicalBitVec {
    /// The topmost level takes exactly one block.
    pub open spec fn top_is_one_block(&self) -> bool {
        blocks_for(self.level(self.num_levels() - 1).len() as int) == 1
    }

    /// Level `k` has bits enough to stand for every bit of level 0.
    pub open spec fn reaches(&self, k: int) -> bool {
        self@.len() <= self.level(k).len() * span(k as nat)
    }

    /// Level `k` has as many bits as the bits of level 0 need, and no more.
    pub open spec fn sized(&self, k: int) -> bool {
        self.reaches(k) && self.level(k).len() == bits_needed(
            self@.len() as int,
            span(k as nat) as int,
        )
    }

    /// Bit `i` of level `k` says whether block `i` of the level below holds a
    /// true bit.
    pub open spec fn agrees(&self, k: int, i: int) -> bool {
        self.level(k)[i] == block_any(self.level(k - 1), i)
    }

    /// The levels from 0 up to `k`, `k` left out, have the sizes that the
    /// bits of level 0 need.
    pub open spec fn sized_below(&self, k: int) -> bool {
        forall|j: int| 0 <= j < k ==> #[trigger] self.sized(j)
    }

    /// Every bit of the levels from 1 on that comes before bit `i` of level
    /// `k`, level by level, agrees with its block.
    pub open spec fn agrees_before(&self, k: int, i: int) -> bool {
        forall|j: int, h: int|
            1 <= j <= k && j < self.num_levels() && 0 <= h < self.level(j).len() && (j < k || h
                < i) ==> #[trigger] self.agrees(j, h)
    }

    /// What `_get_error` checks: the topmost level takes one block, level 0
    /// holds a bit, every level has the size that the bits of level 0 need,
    /// and every bit above level 0 agrees with its block.
    pub open spec fn checked(&self) -> bool {
        self.num_levels() > 0 ==> {
            &&& self.top_is_one_block()
            &&& self@.len() > 0
            &&& self.sized_below(self.num_levels() as int)
            &&& self.agrees_before(self.num_levels() as int, 0)
        }
    }

    /// The first fault that `_get_error` looks for and `error` names is
    /// there, and none of those that it looks for before.
    pub open spec fn is_first_fault(&self, error: _InternalStateError) -> bool {
        &&& self.num_levels() > 0
        &&& match error {
            _InternalStateError::TopmostLevelHasMoreThanOneFlag => !self.top_is_one_block(),
            _InternalStateError::LevelsIsAllocatedButLevelZeroHasZeroBits => {
                &&& self.top_is_one_block()
                &&& self@.len() == 0
            },
            _InternalStateError::LevelContainsLessBitsThanLevelZero {
                level,
                max_num_bits_level_can_encompass,
                num_bits_level_zero_encompasses,
            } => {
                &&& self.top_is_one_block()
                &&& self@.len() > 0
                &&& level < self.num_levels()
                &&& self.sized_below(level as int)
                &&& !self.reaches(level as int)
                &&& max_num_bits_level_can_encompass == self.level(level as int).len() * span(
                    level as nat,
                )
                &&& num_bits_level_zero_encompasses == self@.len()
            },
            _InternalStateError::LevelEncompassesMoreBitsThanAreNeededToFitNumBits {
                level,
                min_num_bits_needed_to_fit_num_bits_at_level,
                num_bits_level_zero_encompasses,
            } => {
                &&& self.top_is_one_block()
                &&& self@.len() > 0
                &&& level < self.num_levels()
                &&& self.sized_below(level as int)
                &&& self.reaches(level as int)
                &&& !self.sized(level as int)
                &&& min_num_bits_needed_to_fit_num_bits_at_level == bits_needed(
                    self@.len() as int,
                    span(level as nat) as int,
                )
                &&& num_bits_level_zero_encompasses == self@.len()
            },
            _InternalStateError::ParentBitDoesntMatchChildBlock {
                idx_of_parent_bit,
                parent_bit,
                parent_level,
                idx_of_child_flags,
                child_flags,
                child_level,
            } => {
                &&& self.top_is_one_block()
                &&& self@.len() > 0
                &&& self.sized_below(self.num_levels() as int)
                &&& 1 <= parent_level < self.num_levels()
                &&& child_level == parent_level - 1
                &&& idx_of_parent_bit < self.level(parent_level as int).len()
                &&& idx_of_child_flags == idx_of_parent_bit
                &&& self.agrees_before(parent_level as int, idx_of_parent_bit as int)
                &&& !self.agrees(parent_level as int, idx_of_parent_bit as int)
                &&& parent_bit == (if self.level(parent_level as int)[idx_of_parent_bit as int] {
                    1u32
                } else {
                    0u32
                })
                &&& forall|j: u32|
                    j < 32 ==> #[trigger] bit_at(child_flags, j) == block_bit(
                        self.level(child_level as int),
                        idx_of_child_flags as int,
                        j as int,
                    )
            },
        }
    }

    /// In a well-formed vector every level has the size that the bits of
    /// level 0 need.
    pub proof fn lemma_levels_are_sized(&self, k: int)
        requires
            self.wf(),
            0 <= k < self.num_levels(),
        ensures
            self.sized(k),
        decreases k,
    {
        let n = self@.len() as int;
        lemma_span_is_positive(k as nat);
        if k > 0 {
            self.lemma_levels_are_sized(k - 1);
            assert(self.linked(k));
            lemma_bits_needed_by_level(n, k as nat);
        }
        lemma_bits_needed_are_enough(n, span(k as nat) as int);
    }

    /// A well-formed vector passes the check of `_get_error`.
    pub proof fn lemma_wf_is_checked(&self)
        requires
            self.wf(),
        ensures
            self.checked(),
    {
        if self.num_levels() > 0 {
            let top = self.num_levels() - 1;
            self.lemma_levels_are_sized(top);
            lemma_span_is_positive(top as nat);
            assert forall|j: int| 0 <= j < self.num_levels() implies #[trigger] self.sized(j) by {
                self.lemma_levels_are_sized(j);
            }
            assert forall|j: int, h: int|
                1 <= j < self.num_levels() && 0 <= h < self.level(j).len() implies #[trigger] self.agrees(
                j,
                h,
            ) by {
                assert(self.linked(j));
            }
        }
    }

    /// A vector with a fault does not pass the check, so that `_get_error`
    /// returns `Ok` exactly where every check holds.
    pub proof fn lemma_fault_fails_check(&self, error: _InternalStateError)
        requires
            self.is_first_fault(error),
        ensures
            !self.checked(),
    {
        match error {
            _InternalStateError::LevelContainsLessBitsThanLevelZero { level, .. } => {
                if self.checked() {
                    assert(self.sized(level as int));
                }
            },
            _InternalStateError::LevelEncompassesMoreBitsThanAreNeededToFitNumBits {
                level,
                ..
            } => {
                if self.checked() {
                    assert(self.sized(level as int));
                }
            },
            _InternalStateError::ParentBitDoesntMatchChildBlock {
                idx_of_parent_bit,
                parent_level,
                ..
            } => {
                if self.checked() {
                    assert(self.agrees(parent_level as int, idx_of_parent_bit as int));
                }
            },
            _ => {},
        }
    }

    /// Checks the levels against each other and names the first fault.
    pub fn _get_error(&self) -> (r: Result<(), _InternalStateError>)
        requires
            self.storage_wf(),
        ensures
            match r {
                Ok(()) => self.checked(),
                Err(error) => self.is_first_fault(error),
            },
    {
        if self.levels.len() == 0 {
            return Ok(())
        }
        if !(self.levels[self.levels.len() - 1].num_blocks() == 1) {
            return Err(_InternalStateError::TopmostLevelHasMoreThanOneFlag)
        }
        if !(self.levels[0].num_bits() > 0) {
            return Err(_InternalStateError::LevelsIsAllocatedButLevelZeroHasZeroBits)
        }
        let num_bits: usize = self.levels[0].num_bits();

        let mut num_bits_per_bit_at_level: usize = 1;
        let mut num_bits_per_bit_fits: bool = true;
        for level in 0..self.levels.len()
            invariant
                self.storage_wf(),
                self.num_levels() > 0,
                self.top_is_one_block(),
                num_bits == self@.len(),
                num_bits > 0,
                self.sized_below(level as int),
                num_bits_per_bit_fits ==> num_bits_per_bit_at_level == span(level as nat),
                !num_bits_per_bit_fits ==> span(level as nat) > usize::MAX,
        {
            proof {
                lemma_span_is_positive(level as nat);
                self.levels[level as int].lemma_len_fits();
            }
            let num_bits_at_level: usize = self.levels[level].num_bits();
            let ghost per_bit = span(level as nat) as int;
            let min_num_bits_needed_to_fit_num_bits_at_level: usize;
            if num_bits_per_bit_fits {
                match num_bits_at_level.checked_mul(num_bits_per_bit_at_level) {
                    Some(max_num_bits_level_can_encompass) => {
                        if !(num_bits <= max_num_bits_level_can_encompass) {
                            return Err(
                                _InternalStateError::LevelContainsLessBitsThanLevelZero {
                                    level,
                                    max_num_bits_level_can_encompass,
                                    num_bits_level_zero_encompasses: self.levels[0].num_bits(),
                                },
                            )
                        }
                    },
                    None => {},
                }
                min_num_bits_needed_to_fit_num_bits_at_level = ((num_bits - 1)
                    / num_bits_per_bit_at_level) + 1;
            } else {
                if num_bits_at_level == 0 {
                    assert(num_bits_at_level * per_bit == 0) by (nonlinear_arith)
                        requires
                            num_bits_at_level == 0,
                    ;
                    return Err(
                        _InternalStateError::LevelContainsLessBitsThanLevelZero {
                            level,
                            max_num_bits_level_can_encompass: 0,
                            num_bits_level_zero_encompasses: self.levels[0].num_bits(),
                        },
                    )
                }
                assert(num_bits_at_level * per_bit >= per_bit) by (nonlinear_arith)
                    requires
                        num_bits_at_level >= 1,
                        per_bit >= 0,
                ;
                assert((num_bits - 1) / per_bit == 0) by (nonlinear_arith)
                    requires
                        0 <= num_bits - 1 < per_bit,
                ;
                min_num_bits_needed_to_fit_num_bits_at_level = 1;
            }
            if !(num_bits_at_level == min_num_bits_needed_to_fit_num_bits_at_level) {
                return Err(
                    _InternalStateError::LevelEncompassesMoreBitsThanAreNeededToFitNumBits {
                        level,
                        min_num_bits_needed_to_fit_num_bits_at_level,
                        num_bits_level_zero_encompasses: self.levels[0].num_bits(),
                    },
                )
            }
            if num_bits_per_bit_fits {
                match num_bits_per_bit_at_level.checked_mul(BITS_PER_BLOCK) {
                    Some(num_bits_per_bit_above) => {
                        num_bits_per_bit_at_level = num_bits_per_bit_above;
                    },
                    None => {
                        num_bits_per_bit_fits = false;
                    },
                }
            }
            proof {
                assert(span((level + 1) as nat) == 32 * span(level as nat));
                assert(span((level + 1) as nat) >= span(level as nat));
                assert forall|j: int| 0 <= j < level + 1 implies #[trigger] self.sized(j) by {}
            }
        }

        let mut level: usize = 1;
        while level < self.levels.len()
            invariant
                self.storage_wf(),
                self.num_levels() > 0,
                self.top_is_one_block(),
                self@.len() > 0,
                self.sized_below(self.num_levels() as int),
                1 <= level <= self.levels.len(),
                self.agrees_before(level as int, 0),
            decreases self.levels.len() - level,
        {
            let num_bits_at_level: usize = self.levels[level].num_bits();
            proof {
                assert(self.sized(level as int));
                assert(self.sized(level - 1));
                lemma_bits_needed_by_level(self@.len() as int, level as nat);
            }
            for idx_of_parent_bit in 0..num_bits_at_level
                invariant
                    self.storage_wf(),
                    self.num_levels() > 0,
                    self.top_is_one_block(),
                    self@.len() > 0,
                    self.sized_below(self.num_levels() as int),
                    1 <= level < self.levels.len(),
                    num_bits_at_level == self.level(level as int).len(),
                    num_bits_at_level == blocks_for(self.level(level - 1).len() as int),
                    self.agrees_before(level as int, idx_of_parent_bit as int),
            {
                let idx_of_child_flags: usize = idx_of_parent_bit;
                let child_flags: Block = self.levels[level - 1].get_block(idx_of_child_flags);
                let parent_bit: Block = if self.levels[level].get_bit(idx_of_parent_bit) {
                    1
                } else {
                    0
                };
                if !((parent_bit == 0) == (child_flags == 0)) {
                    return Err(
                        _InternalStateError::ParentBitDoesntMatchChildBlock {
                            idx_of_parent_bit,
                            parent_bit,
                            parent_level: level,
                            idx_of_child_flags,
                            child_flags,
                            child_level: level - 1,
                        },
                    )
                }
                proof {
                    assert(self.agrees(level as int, idx_of_parent_bit as int));
                    assert forall|j: int, h: int|
                        1 <= j <= level && j < self.num_levels() && 0 <= h < self.level(j).len()
                            && (j < level || h < idx_of_parent_bit + 1) implies #[trigger] self.agrees(
                        j,
                        h,
                    ) by {}
                }
            }
            level += 1;
        }
        return Ok(())
    }
}

} // verus!
