//! Facts about single 32-bit words, proved once by bit blasting.

use vstd::prelude::*;

verus! {

/// Whether bit `j` of `w` is set. Meant for `j < 32`.
pub open spec fn bit_at(w: u32, j: u32) -> bool {
    (w >> j) & 1u32 == 1u32
}

/// Testing a bit with a one-bit mask reads that bit.
pub proof fn lemma_test_bit(w: u32, i: u32)
    requires
        i < 32,
    ensures
        ((w & (1u32 << i)) != 0) == bit_at(w, i),
{
    assert(((w & (1u32 << i)) != 0) == ((w >> i) & 1u32 == 1u32)) by (bit_vector)
        requires
            i < 32,
    ;
}

/// Clearing bit `i` and then or-ing in `v << i` writes `v` to bit `i` and
/// leaves every other bit alone.
pub proof fn lemma_write_bit(w: u32, i: u32, v: u32, j: u32)
    requires
        i < 32,
        j < 32,
        v <= 1,
    ensures
        bit_at((w & !(1u32 << i)) | (v << i), j) == (if j == i {
            v == 1
        } else {
            bit_at(w, j)
        }),
{
    assert((((w & !(1u32 << i)) | (v << i)) >> j) & 1u32 == (if j == i {
        v
    } else {
        (w >> j) & 1u32
    })) by (bit_vector)
        requires
            i < 32,
            j < 32,
            v <= 1,
    ;
    assert((w >> j) & 1u32 <= 1) by (bit_vector);
}

/// Or-ing in `MAX << i` sets bit `i` and every bit above it.
pub proof fn lemma_set_upper(w: u32, i: u32, j: u32)
    requires
        i < 32,
        j < 32,
    ensures
        bit_at(w | (0xffff_ffffu32 << i), j) == (j >= i || bit_at(w, j)),
{
    assert((((w | (0xffff_ffffu32 << i)) >> j) & 1u32 == 1u32) == (j >= i || (w >> j) & 1u32
        == 1u32)) by (bit_vector)
        requires
            i < 32,
            j < 32,
    ;
}

/// And-ing with `(1 << i) - 1` keeps the bits below `i` and clears the rest.
pub proof fn lemma_keep_lower(w: u32, i: u32, j: u32)
    requires
        1 <= i < 32,
        j < 32,
    ensures
        bit_at(w & (((1u32 << i) - 1) as u32), j) == (j < i && bit_at(w, j)),
{
    assert((((w & (((1u32 << i) - 1) as u32)) >> j) & 1u32 == 1u32) == (j < i && (w >> j) & 1u32
        == 1u32)) by (bit_vector)
        requires
            1 <= i < 32,
            j < 32,
    ;
}

/// Every bit of the all-ones word is set, and none of the zero word.
pub proof fn lemma_uniform(j: u32)
    requires
        j < 32,
    ensures
        bit_at(0xffff_ffffu32, j),
        !bit_at(0u32, j),
{
    assert((0xffff_ffffu32 >> j) & 1u32 == 1u32) by (bit_vector)
        requires
            j < 32,
    ;
    assert((0u32 >> j) & 1u32 == 0u32) by (bit_vector);
}

/// The number of trailing zeros of a non-zero word is the position of its
/// lowest set bit.
pub proof fn lemma_lowest_bit(w: u32)
    requires
        w != 0,
    ensures
        w.trailing_zeros() < 32,
        bit_at(w, w.trailing_zeros()),
        forall|j: u32| j < w.trailing_zeros() ==> !#[trigger] bit_at(w, j),
{
    vstd::std_specs::bits::axiom_u32_trailing_zeros(w);
    let t: u32 = w.trailing_zeros();
    assert forall|j: u32| j < t implies !#[trigger] bit_at(w, j) by {
        assert((w >> j) & 1u32 == 0u32);
    }
}

/// And-ing with the all-ones word changes nothing.
pub proof fn lemma_keep_all(w: u32)
    ensures
        w & 0xffff_ffffu32 == w,
{
    assert(w & 0xffff_ffffu32 == w) by (bit_vector);
}

/// A word with a single bit set is at least one.
pub proof fn lemma_one_bit_is_positive(i: u32)
    requires
        i < 32,
    ensures
        (1u32 << i) >= 1,
{
    assert((1u32 << i) >= 1) by (bit_vector)
        requires
            i < 32,
    ;
}

/// A word with a set bit is not zero.
pub proof fn lemma_nonzero(w: u32, j: u32)
    requires
        j < 32,
        bit_at(w, j),
    ensures
        w != 0,
{
    assert((w >> j) & 1u32 == 1u32 ==> w != 0) by (bit_vector);
}

/// Clearing bit `i` leaves every other bit alone.
pub proof fn lemma_clear_bit(w: u32, i: u32, j: u32)
    requires
        i < 32,
        j < 32,
    ensures
        bit_at(w & !(1u32 << i), j) == (j != i && bit_at(w, j)),
{
    assert((((w & !(1u32 << i)) >> j) & 1u32 == 1u32) == (j != i && (w >> j) & 1u32 == 1u32))
        by (bit_vector)
        requires
            i < 32,
            j < 32,
    ;
}

} // verus!
