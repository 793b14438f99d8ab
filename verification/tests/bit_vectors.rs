use item_pool::flag_based::bit::{BitVec, BITS_PER_BLOCK, BITS_PER_BYTE};
use item_pool::flag_based::bool::{BoolVec, TrueFlagsIterator};
use item_pool::flag_based::hierarchical::{HierarchicalBitVec, _InternalStateError};
use item_pool::flag_based::FlagVec;
use item_pool::Traversal;
use rand::Rng;
use rand::SeedableRng;
use rand_xoshiro::Xoshiro256StarStar;

fn drain<T: Traversal<Item = usize>>(mut iter: T) -> Vec<usize> {
    let mut found: Vec<usize> = Vec::new();
    while let Some(bit) = iter.next() {
        found.push(bit);
    }
    found
}

fn true_indices(model: &Vec<bool>) -> Vec<usize> {
    (0..model.len()).filter(|i| model[*i]).collect()
}

fn bits_of(bits: &BitVec) -> Vec<bool> {
    (0..bits.num_bits()).map(|i| bits.get_bit(i)).collect()
}

#[test]
fn block_width_is_four_bytes() {
    assert_eq!(BITS_PER_BYTE, 8);
    assert_eq!(BITS_PER_BLOCK, 32);
}

#[test]
fn new_bit_vec_is_empty() {
    let bits = BitVec::new();
    assert_eq!(bits.num_bits(), 0);
    assert_eq!(bits.num_blocks(), 0);
    assert_eq!(bits._get_num_blocks(), 0);
    assert_eq!(bits.get_block(0), 0);
    assert_eq!(bits.find_a_true_bit(), None);
    assert!(drain(bits.true_bits()).is_empty());
}

#[test]
fn with_bits_sets_every_bit_to_the_value() {
    let ones = BitVec::with_bits(40, true);
    assert_eq!(ones.num_bits(), 40);
    assert_eq!(ones.num_blocks(), 2);
    assert_eq!(bits_of(&ones), vec![true; 40]);

    let zeros = BitVec::with_bits(40, false);
    assert_eq!(zeros.num_bits(), 40);
    assert_eq!(zeros.num_blocks(), 2);
    assert_eq!(bits_of(&zeros), vec![false; 40]);

    assert_eq!(BitVec::with_bits(0, true).num_blocks(), 0);
    assert_eq!(BitVec::with_bits(1, true).num_blocks(), 1);
    assert_eq!(BitVec::with_bits(32, true).num_blocks(), 1);
    assert_eq!(BitVec::with_bits(33, true).num_blocks(), 2);
    assert_eq!(BitVec::with_bits(64, false).num_blocks(), 2);
    assert_eq!(BitVec::with_bits(65, false).num_blocks(), 3);
}

#[test]
fn set_bit_writes_one_bit() {
    let mut bits = BitVec::with_bits(70, false);
    bits.set_bit(0, true);
    bits.set_bit(31, true);
    bits.set_bit(32, true);
    bits.set_bit(69, true);
    assert_eq!(drain(bits.true_bits()), vec![0, 31, 32, 69]);
    bits.set_bit(31, false);
    bits.set_bit(31, false);
    bits.set_bit(32, true);
    assert_eq!(drain(bits.true_bits()), vec![0, 32, 69]);
    assert!(bits.get_bit(32));
    assert!(!bits.get_bit(31));
    assert_eq!(bits.num_bits(), 70);
}

#[test]
fn get_block_masks_what_lies_beyond_the_end() {
    let ones = BitVec::with_bits(40, true);
    assert_eq!(ones.get_block(0), u32::MAX);
    assert_eq!(ones.get_block(1), 0xff);

    let mut bits = BitVec::with_bits(35, false);
    bits.set_bit_and_all_bits_after_it_to_true(33);
    assert_eq!(bits.get_block(0), 0);
    assert_eq!(bits.get_block(1), 0b110);

    let exact = BitVec::with_bits(64, true);
    assert_eq!(exact.get_block(1), u32::MAX);
}

#[test]
fn set_bit_and_all_bits_after_it_to_true_keeps_the_bits_before() {
    let mut bits = BitVec::with_bits(100, false);
    bits.set_bit(3, true);
    bits.set_bit_and_all_bits_after_it_to_true(37);
    let mut expected: Vec<usize> = vec![3];
    expected.extend(37..100);
    assert_eq!(drain(bits.true_bits()), expected);
    assert_eq!(bits.num_bits(), 100);

    bits.set_bit_and_all_bits_after_it_to_true(0);
    assert_eq!(bits_of(&bits), vec![true; 100]);
}

#[test]
fn add_bits_tops_up_the_last_block_first() {
    let mut bits = BitVec::with_bits(5, false);
    bits.add_bits(30, true);
    assert_eq!(bits.num_bits(), 35);
    assert_eq!(bits.num_blocks(), 2);
    assert_eq!(bits.get_block(0), u32::MAX << 5);
    assert_eq!(bits.get_block(1), 0b111);

    bits.add_bits(3, false);
    assert_eq!(bits.num_bits(), 38);
    assert_eq!(bits.num_blocks(), 2);
    assert_eq!(bits.get_block(1), 0b111);

    bits.add_bits(26, true);
    assert_eq!(bits.num_bits(), 64);
    assert_eq!(bits.num_blocks(), 2);
    assert_eq!(bits.get_block(1), !0b111000);

    bits.add_bits(1, true);
    assert_eq!(bits.num_bits(), 65);
    assert_eq!(bits.num_blocks(), 3);
    assert_eq!(bits.get_block(2), 1);
}

#[test]
fn add_bits_after_true_bits_appends_false_ones() {
    let mut bits = BitVec::with_bits(5, true);
    bits.add_bits(10, false);
    assert_eq!(drain(bits.true_bits()), vec![0, 1, 2, 3, 4]);
    assert_eq!(bits.get_block(0), 0b11111);
    assert_eq!(bits.find_a_true_bit(), Some(0));
}

#[test]
fn add_bits_to_an_empty_vector_and_of_nothing() {
    let mut bits = BitVec::new();
    bits.add_bits(0, true);
    assert_eq!(bits.num_bits(), 0);
    bits.add_bits(33, true);
    assert_eq!(bits.num_bits(), 33);
    assert_eq!(bits.num_blocks(), 2);
    bits.add_bits(0, false);
    assert_eq!(bits.num_bits(), 33);
    assert_eq!(bits_of(&bits), vec![true; 33]);
}

#[test]
fn find_a_true_bit_gives_the_lowest() {
    let mut bits = BitVec::with_bits(200, false);
    assert_eq!(bits.find_a_true_bit(), None);
    bits.set_bit(199, true);
    assert_eq!(bits.find_a_true_bit(), Some(199));
    bits.set_bit(64, true);
    assert_eq!(bits.find_a_true_bit(), Some(64));
    bits.set_bit(63, true);
    assert_eq!(bits.find_a_true_bit(), Some(63));
    bits.set_bit(63, false);
    bits.set_bit(64, false);
    bits.set_bit(199, false);
    assert_eq!(bits.find_a_true_bit(), None);
}

#[test]
fn find_a_true_bit_looks_at_no_bit_beyond_the_end() {
    let mut bits = BitVec::with_bits(5, true);
    for bit in 0..5 {
        bits.set_bit(bit, false);
    }
    assert_eq!(bits.find_a_true_bit(), None);
    assert!(drain(bits.true_bits()).is_empty());

    let mut bits = BitVec::with_bits(40, false);
    bits.set_bit_and_all_bits_after_it_to_true(39);
    bits.set_bit(39, false);
    assert_eq!(bits.find_a_true_bit(), None);
}

#[test]
fn true_bits_starts_afresh_with_each_call() {
    let mut bits = BitVec::with_bits(10, false);
    bits.set_bit(2, true);
    bits.set_bit(7, true);
    let mut first = bits.true_bits();
    assert_eq!(first.next(), Some(2));
    let mut second = bits.true_bits();
    assert_eq!(second.next(), Some(2));
    assert_eq!(first.next(), Some(7));
    assert_eq!(first.next(), None);
    assert_eq!(first.next(), None);
    assert_eq!(second.next(), Some(7));
    assert_eq!(second.next(), None);
}

#[test]
fn block_that_contains_bit_is_the_bit_divided_by_the_width() {
    let bits = BitVec::with_bits(100, false);
    assert_eq!(bits._get_block_that_contains_bit(0), 0);
    assert_eq!(bits._get_block_that_contains_bit(31), 0);
    assert_eq!(bits._get_block_that_contains_bit(32), 1);
    assert_eq!(bits._get_block_that_contains_bit(99), 3);
    assert_eq!(bits._get_num_blocks(), 4);
}

#[test]
fn bit_vec_as_flag_vec() {
    let mut flags: BitVec = FlagVec::with_flags(3, false);
    assert_eq!(flags.num_flags(), 3);
    flags.add_flags(2, true);
    assert_eq!(flags.num_flags(), 5);
    assert_eq!(flags.find_a_true_flag(), Some(3));
    flags.set_flag(1, true);
    assert!(flags.get_flag(1));
    assert_eq!(flags.find_a_true_flag(), Some(1));
    assert_eq!(drain(flags.true_flags()), vec![1, 3, 4]);
    let empty: BitVec = FlagVec::new();
    assert_eq!(empty.num_flags(), 0);
}

#[test]
fn bool_vec_as_flag_vec() {
    let empty: BoolVec = FlagVec::new();
    assert_eq!(empty.num_flags(), 0);
    assert_eq!(empty.find_a_true_flag(), None);
    assert!(drain(empty.true_flags()).is_empty());

    let mut flags: BoolVec = FlagVec::with_flags(4, true);
    assert_eq!(flags.num_flags(), 4);
    assert_eq!(flags.find_a_true_flag(), Some(0));
    flags.set_flag(0, false);
    flags.set_flag(2, false);
    assert!(!flags.get_flag(0));
    assert!(flags.get_flag(1));
    assert_eq!(flags.find_a_true_flag(), Some(1));
    flags.add_flags(3, false);
    flags.add_flags(1, true);
    assert_eq!(flags.num_flags(), 8);
    assert_eq!(drain(flags.true_flags()), vec![1, 3, 7]);
    flags.set_flag(1, false);
    flags.set_flag(3, false);
    flags.set_flag(7, false);
    assert_eq!(flags.find_a_true_flag(), None);
}

#[test]
fn true_flags_iterator_walks_a_vector_of_booleans() {
    let flags: Vec<bool> = vec![false, true, true, false, true];
    let mut iter = TrueFlagsIterator::new(&flags);
    assert_eq!(iter.next(), Some(1));
    assert_eq!(iter.next(), Some(2));
    assert_eq!(iter.next(), Some(4));
    assert_eq!(iter.next(), None);
    assert_eq!(iter.next(), None);
}

fn level_widths(bits: &HierarchicalBitVec) -> Vec<usize> {
    bits.levels().iter().map(|level| level.num_bits()).collect()
}

#[test]
fn forty_true_bits_added_to_an_empty_hierarchy_make_two_levels() {
    let mut bits = HierarchicalBitVec::with_bits(0, false);
    assert!(level_widths(&bits).is_empty());
    bits.add_bits(40, true);
    assert_eq!(level_widths(&bits), vec![40, 2]);
    assert_eq!(bits.find_a_true_bit(), Some(0));
    assert_eq!(bits.num_bits(), 40);
    assert!(bits._get_error().is_ok());
}

#[test]
fn hierarchy_has_as_many_levels_as_the_bits_need() {
    assert!(level_widths(&HierarchicalBitVec::new()).is_empty());
    assert!(level_widths(&HierarchicalBitVec::with_bits(0, true)).is_empty());
    assert_eq!(level_widths(&HierarchicalBitVec::with_bits(1, true)), vec![1]);
    assert_eq!(level_widths(&HierarchicalBitVec::with_bits(32, false)), vec![32]);
    assert_eq!(level_widths(&HierarchicalBitVec::with_bits(33, false)), vec![33, 2]);
    assert_eq!(level_widths(&HierarchicalBitVec::with_bits(1024, true)), vec![1024, 32]);
    assert_eq!(level_widths(&HierarchicalBitVec::with_bits(1025, true)), vec![1025, 33, 2]);
    assert_eq!(
        level_widths(&HierarchicalBitVec::with_bits(32769, false)),
        vec![32769, 1025, 33, 2]
    );
    assert_eq!(HierarchicalBitVec::new().num_bits(), 0);
    assert_eq!(HierarchicalBitVec::with_bits(1025, true).num_bits(), 1025);
}

#[test]
fn hierarchy_set_bit_keeps_the_levels_above_in_step() {
    let mut bits = HierarchicalBitVec::with_bits(1100, false);
    assert_eq!(bits.find_a_true_bit(), None);
    bits.set_bit(1099, true);
    assert!(bits.get_bit(1099));
    assert_eq!(bits.levels()[1].get_block(1), 1 << 2);
    assert_eq!(bits.levels()[2].get_block(0), 0b10);
    assert_eq!(bits.find_a_true_bit(), Some(1099));

    bits.set_bit(1098, true);
    bits.set_bit(1099, false);
    assert_eq!(bits.levels()[1].get_block(1), 1 << 2);
    assert_eq!(bits.find_a_true_bit(), Some(1098));

    bits.set_bit(1098, false);
    assert_eq!(bits.levels()[1].get_block(1), 0);
    assert_eq!(bits.levels()[2].get_block(0), 0);
    assert_eq!(bits.find_a_true_bit(), None);
    assert!(bits._get_error().is_ok());
}

#[test]
fn hierarchy_add_bits_grows_levels_and_puts_new_ones_on_top() {
    let mut bits = HierarchicalBitVec::with_bits(30, false);
    bits.add_bits(2, true);
    assert_eq!(level_widths(&bits), vec![32]);
    assert_eq!(drain(bits.true_bits()), vec![30, 31]);

    bits.add_bits(3, false);
    assert_eq!(level_widths(&bits), vec![35, 2]);
    assert_eq!(bits.levels()[1].get_block(0), 0b01);
    assert_eq!(drain(bits.true_bits()), vec![30, 31]);

    bits.add_bits(1000, true);
    assert_eq!(level_widths(&bits), vec![1035, 33, 2]);
    assert_eq!(bits.levels()[2].get_block(0), 0b11);
    let mut expected: Vec<usize> = vec![30, 31];
    expected.extend(35..1035);
    assert_eq!(drain(bits.true_bits()), expected);
    assert!(bits._get_error().is_ok());

    bits.add_bits(0, true);
    assert_eq!(bits.num_bits(), 1035);
}

#[test]
fn hierarchy_true_bits_skips_empty_blocks_and_ascends() {
    let mut bits = HierarchicalBitVec::with_bits(40000, false);
    let chosen: Vec<usize> = vec![0, 31, 32, 1023, 1024, 5000, 32767, 32768, 39999];
    for bit in chosen.iter().rev() {
        bits.set_bit(*bit, true);
    }
    assert_eq!(drain(bits.true_bits()), chosen);
    let mut iter = bits.true_bits();
    assert_eq!(iter.next(), Some(0));
    assert_eq!(iter.next(), Some(31));
    let mut again = bits.true_bits();
    assert_eq!(again.next(), Some(0));
}

#[test]
fn hierarchy_as_flag_vec() {
    let mut flags: HierarchicalBitVec = FlagVec::with_flags(70, false);
    assert_eq!(flags.num_flags(), 70);
    assert_eq!(flags.find_a_true_flag(), None);
    flags.set_flag(69, true);
    flags.add_flags(2, true);
    assert!(flags.get_flag(69));
    assert!(!flags.get_flag(68));
    assert_eq!(flags.find_a_true_flag(), Some(69));
    assert_eq!(drain(flags.true_flags()), vec![69, 70, 71]);
    let empty: HierarchicalBitVec = FlagVec::new();
    assert_eq!(empty.num_flags(), 0);
    assert_eq!(empty.find_a_true_flag(), None);
    assert!(drain(empty.true_flags()).is_empty());
}

fn check_against_model<F: FlagVec>(flags: &F, model: &Vec<bool>) {
    assert_eq!(flags.num_flags(), model.len());
    for flag in 0..model.len() {
        assert_eq!(flags.get_flag(flag), model[flag]);
    }
    assert_eq!(flags.find_a_true_flag(), model.iter().position(|flag| *flag));
    assert_eq!(drain(flags.true_flags()), true_indices(model));
}

fn fuzz_flag_vec<F: FlagVec>(check: fn(&F)) {
    let mut rng: Xoshiro256StarStar = Xoshiro256StarStar::seed_from_u64(2049);
    for _ in 0..40 {
        let num_flags: usize = rng.gen_range(0..3000);
        let value: bool = rng.gen_range(0..2) == 1;
        let mut flags: F = FlagVec::with_flags(num_flags, value);
        let mut model: Vec<bool> = vec![value; num_flags];
        check_against_model(&flags, &model);
        check(&flags);
        for _ in 0..60 {
            if model.is_empty() || rng.gen_range(0..4) == 0 {
                let added: usize = rng.gen_range(0..2000);
                let value: bool = rng.gen_range(0..2) == 1;
                flags.add_flags(added, value);
                model.resize(model.len() + added, value);
            } else {
                let flag: usize = rng.gen_range(0..model.len());
                let value: bool = rng.gen_range(0..2) == 1;
                flags.set_flag(flag, value);
                model[flag] = value;
            }
            check_against_model(&flags, &model);
            check(&flags);
        }
    }
}

fn no_check<F>(_flags: &F) {}

fn check_levels(bits: &HierarchicalBitVec) {
    assert!(bits._get_error().is_ok());
    let widths = level_widths(bits);
    if bits.num_bits() == 0 {
        assert!(widths.is_empty());
        return;
    }
    assert!(*widths.last().unwrap() <= 32);
    for level in 1..widths.len() {
        assert!(widths[level - 1] > 32);
        assert_eq!(widths[level], (widths[level - 1] + 31) / 32);
        for bit in 0..widths[level] {
            assert_eq!(
                bits.levels()[level].get_bit(bit),
                bits.levels()[level - 1].get_block(bit) != 0
            );
        }
    }
}

#[test]
fn bit_vec_behaves_like_a_vector_of_booleans() {
    fuzz_flag_vec::<BitVec>(no_check);
}

#[test]
fn bool_vec_behaves_like_a_vector_of_booleans() {
    fuzz_flag_vec::<BoolVec>(no_check);
}

#[test]
fn hierarchy_behaves_like_a_vector_of_booleans_and_stays_consistent() {
    fuzz_flag_vec::<HierarchicalBitVec>(check_levels);
}

#[test]
fn get_error_accepts_no_levels() {
    assert!(HierarchicalBitVec::with_levels(Vec::new())._get_error().is_ok());
}

#[test]
fn get_error_finds_a_topmost_level_of_two_blocks() {
    let bits = HierarchicalBitVec::with_levels(vec![BitVec::with_bits(40, true)]);
    assert!(matches!(
        bits._get_error(),
        Err(_InternalStateError::TopmostLevelHasMoreThanOneFlag)
    ));
    let bits = HierarchicalBitVec::with_levels(vec![BitVec::new()]);
    assert!(matches!(
        bits._get_error(),
        Err(_InternalStateError::TopmostLevelHasMoreThanOneFlag)
    ));
}

#[test]
fn get_error_finds_an_empty_level_zero() {
    let bits =
        HierarchicalBitVec::with_levels(vec![BitVec::new(), BitVec::with_bits(1, false)]);
    assert!(matches!(
        bits._get_error(),
        Err(_InternalStateError::LevelsIsAllocatedButLevelZeroHasZeroBits)
    ));
}

#[test]
fn get_error_finds_a_level_that_is_too_small() {
    let bits = HierarchicalBitVec::with_levels(vec![
        BitVec::with_bits(100, false),
        BitVec::with_bits(3, false),
    ]);
    assert!(matches!(
        bits._get_error(),
        Err(_InternalStateError::LevelContainsLessBitsThanLevelZero {
            level: 1,
            max_num_bits_level_can_encompass: 96,
            num_bits_level_zero_encompasses: 100,
        })
    ));
}

#[test]
fn get_error_finds_a_level_that_is_too_large() {
    let bits = HierarchicalBitVec::with_levels(vec![
        BitVec::with_bits(40, false),
        BitVec::with_bits(5, false),
    ]);
    assert!(matches!(
        bits._get_error(),
        Err(
            _InternalStateError::LevelEncompassesMoreBitsThanAreNeededToFitNumBits {
                level: 1,
                min_num_bits_needed_to_fit_num_bits_at_level: 2,
                num_bits_level_zero_encompasses: 40,
            }
        )
    ));
}

#[test]
fn get_error_finds_a_bit_that_does_not_match_its_block() {
    let bits = HierarchicalBitVec::with_levels(vec![
        BitVec::with_bits(40, true),
        BitVec::with_bits(2, false),
    ]);
    assert!(matches!(
        bits._get_error(),
        Err(_InternalStateError::ParentBitDoesntMatchChildBlock {
            idx_of_parent_bit: 0,
            parent_bit: 0,
            parent_level: 1,
            idx_of_child_flags: 0,
            child_flags: u32::MAX,
            child_level: 0,
        })
    ));

    let mut upper = BitVec::with_bits(2, false);
    upper.set_bit(0, true);
    upper.set_bit(1, true);
    let mut lower = BitVec::with_bits(40, false);
    lower.set_bit(7, true);
    let bits = HierarchicalBitVec::with_levels(vec![lower, upper]);
    assert!(matches!(
        bits._get_error(),
        Err(_InternalStateError::ParentBitDoesntMatchChildBlock {
            idx_of_parent_bit: 1,
            parent_bit: 1,
            parent_level: 1,
            idx_of_child_flags: 1,
            child_flags: 0,
            child_level: 0,
        })
    ));
}

#[test]
fn get_error_accepts_levels_that_fit_together() {
    let mut upper = BitVec::with_bits(2, false);
    upper.set_bit(1, true);
    let mut lower = BitVec::with_bits(40, false);
    lower.set_bit(39, true);
    let bits = HierarchicalBitVec::with_levels(vec![lower, upper]);
    assert!(bits._get_error().is_ok());
    assert_eq!(bits.find_a_true_bit(), Some(39));
}
