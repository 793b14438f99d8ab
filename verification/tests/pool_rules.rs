use item_pool::flag_based::{BitFlags, BoolFlags, HierarchicalFlags};
use item_pool::freelist::FreeList;
use item_pool::notsafe::NotSafe;
use item_pool::reference::Reference;
use item_pool::simple::Simple;
use item_pool::stacks::Stacks;
use item_pool::{Pool, Traversal};

fn items_of<T: Pool<u64>>(pool: &T) -> Vec<u64> {
    let mut items: Vec<u64> = Vec::new();
    let mut iter = pool.iter();
    while let Some(item) = iter.next() {
        items.push(*item);
    }
    items
}

fn check_round_trip<T: Pool<u64>>() {
    let mut pool: T = Pool::new();
    assert_eq!(pool.len(), 0);
    assert!(items_of(&pool).is_empty());
    let mut ids: Vec<usize> = Vec::new();
    for item in 0..100u64 {
        let len_before = pool.len();
        let id = pool.allocate(item * 3);
        assert_eq!(*pool.get(id), item * 3);
        assert_eq!(pool.len(), len_before + 1);
        assert!(!ids.contains(&id));
        ids.push(id);
    }
    for (item, id) in ids.iter().enumerate() {
        assert_eq!(*pool.get(*id), item as u64 * 3);
    }
    *pool.get_mut(ids[17]) = 1000;
    assert_eq!(*pool.get(ids[17]), 1000);
    assert_eq!(*pool.get(ids[16]), 48);
    assert_eq!(*pool.get(ids[18]), 54);
    assert_eq!(pool.len(), 100);

    pool.deallocate(ids[17]);
    pool.deallocate(ids[40]);
    assert_eq!(pool.len(), 98);
    let mut items = items_of(&pool);
    items.sort();
    let mut expected: Vec<u64> = (0..100u64).filter(|i| *i != 17 && *i != 40).map(|i| i * 3).collect();
    expected.sort();
    assert_eq!(items, expected);

    let id = pool.allocate(7);
    assert_eq!(*pool.get(id), 7);
    assert_eq!(pool.len(), 99);
}

#[test]
fn every_pool_gives_back_what_was_stored() {
    check_round_trip::<BoolFlags<u64>>();
    check_round_trip::<BitFlags<u64>>();
    check_round_trip::<HierarchicalFlags<u64>>();
    check_round_trip::<Simple<u64>>();
    check_round_trip::<FreeList<u64>>();
    check_round_trip::<Stacks<u64>>();
    check_round_trip::<NotSafe<u64>>();
    check_round_trip::<Reference<u64>>();
}

fn check_with_capacity<T: Pool<u64>>() {
    for capacity in [0usize, 1, 7, 8, 9, 100] {
        let mut pool: T = Pool::with_capacity(capacity);
        assert_eq!(pool.len(), 0);
        assert!(pool.iter().next().is_none());
        for item in 0..(capacity as u64 + 3) {
            let id = pool.allocate(item);
            assert_eq!(*pool.get(id), item);
        }
        assert_eq!(pool.len(), capacity + 3);
    }
}

#[test]
fn every_pool_starts_empty_whatever_its_capacity() {
    check_with_capacity::<BoolFlags<u64>>();
    check_with_capacity::<BitFlags<u64>>();
    check_with_capacity::<HierarchicalFlags<u64>>();
    check_with_capacity::<Simple<u64>>();
    check_with_capacity::<FreeList<u64>>();
    check_with_capacity::<Stacks<u64>>();
    check_with_capacity::<NotSafe<u64>>();
    check_with_capacity::<Reference<u64>>();
}

fn check_lowest_free_id_and_ascending_order<T: Pool<u64>>() {
    let mut pool: T = Pool::new();
    for item in 0..70u64 {
        assert_eq!(pool.allocate(item), item as usize);
    }
    pool.deallocate(65);
    pool.deallocate(3);
    pool.deallocate(33);
    assert_eq!(pool.allocate(100), 3);
    assert_eq!(pool.allocate(101), 33);
    pool.deallocate(0);
    pool.deallocate(69);
    let mut expected: Vec<u64> = (1..69u64).collect();
    expected[2] = 100;
    expected[32] = 101;
    expected.remove(64);
    assert_eq!(items_of(&pool), expected);
    assert_eq!(pool.allocate(102), 0);
    assert_eq!(pool.allocate(103), 65);
    assert_eq!(pool.allocate(104), 69);
    assert_eq!(pool.allocate(105), 70);
    assert_eq!(pool.len(), 71);
}

#[test]
fn scanning_pools_take_the_lowest_free_id_and_walk_in_ascending_order() {
    check_lowest_free_id_and_ascending_order::<BoolFlags<u64>>();
    check_lowest_free_id_and_ascending_order::<BitFlags<u64>>();
    check_lowest_free_id_and_ascending_order::<HierarchicalFlags<u64>>();
    check_lowest_free_id_and_ascending_order::<Simple<u64>>();
}

#[test]
fn free_list_takes_the_slot_that_was_freed_last() {
    let mut pool: FreeList<u64> = Pool::with_capacity(3);
    assert_eq!(pool.allocate(10), 0);
    assert_eq!(pool.allocate(11), 1);
    assert_eq!(pool.allocate(12), 2);
    assert_eq!(pool.allocate(13), 3);
    assert_eq!(pool.allocate(14), 4);
    pool.deallocate(1);
    pool.deallocate(3);
    assert_eq!(items_of(&pool), vec![10, 12, 14]);
    assert_eq!(pool.allocate(15), 3);
    assert_eq!(pool.allocate(16), 1);
    assert_eq!(pool.allocate(17), 5);
    assert_eq!(items_of(&pool), vec![10, 16, 12, 15, 14, 17]);
}

#[test]
fn stacks_fills_the_block_that_opened_last_and_walks_block_by_block() {
    let mut pool: Stacks<u64> = Pool::with_capacity(16);
    for item in 0..16u64 {
        assert_eq!(pool.allocate(item), item as usize);
    }
    pool.deallocate(3);
    assert_eq!(pool.allocate(20), 3);
    pool.deallocate(5);
    pool.deallocate(12);
    pool.deallocate(2);
    assert_eq!(pool.allocate(21), 12);
    assert_eq!(pool.allocate(22), 2);
    assert_eq!(pool.allocate(23), 5);
    assert_eq!(pool.allocate(24), 16);
    for id in 0..8 {
        pool.deallocate(id);
    }
    assert_eq!(items_of(&pool), vec![8, 9, 10, 11, 21, 13, 14, 15, 24]);
    assert_eq!(pool.allocate(25), 0);
    assert_eq!(items_of(&pool), vec![8, 9, 10, 11, 21, 13, 14, 15, 24, 25]);
    assert_eq!(pool.len(), 10);
}

#[test]
fn not_safe_walks_the_block_that_got_its_first_item_last_first() {
    let mut pool: NotSafe<u64> = Pool::with_capacity(16);
    for item in 0..16u64 {
        assert_eq!(pool.allocate(item), item as usize);
    }
    let mut expected: Vec<u64> = (8..16).collect();
    expected.extend(0..8);
    assert_eq!(items_of(&pool), expected);
    pool.deallocate(3);
    assert_eq!(pool.allocate(20), 3);
    assert_eq!(pool.allocate(24), 16);
    assert_eq!(
        items_of(&pool),
        vec![24, 8, 9, 10, 11, 12, 13, 14, 15, 0, 1, 2, 20, 4, 5, 6, 7]
    );
    for id in 8..16 {
        pool.deallocate(id);
    }
    assert_eq!(items_of(&pool), vec![24, 0, 1, 2, 20, 4, 5, 6, 7]);
    pool.deallocate(16);
    for id in 0..8 {
        pool.deallocate(id);
    }
    assert!(items_of(&pool).is_empty());
    assert_eq!(pool.len(), 0);
    assert_eq!(pool.allocate(30), 0);
    assert_eq!(pool.allocate(31), 1);
    assert_eq!(items_of(&pool), vec![30, 31]);
}

#[test]
fn reference_counts_its_ids_up_and_reuses_none() {
    let mut pool: Reference<u64> = Pool::with_capacity(10);
    assert_eq!(pool.allocate(5), 0);
    assert_eq!(pool.allocate(6), 1);
    pool.deallocate(0);
    assert_eq!(pool.allocate(7), 2);
    *pool.get_mut(1) = 60;
    assert_eq!(*pool.get(1), 60);
    assert_eq!(*pool.get(2), 7);
    assert_eq!(items_of(&pool), vec![60, 7]);
    assert_eq!(pool.len(), 2);
}

#[test]
fn pools_double_their_slots_when_none_is_free() {
    let mut pool: BitFlags<u64> = Pool::new();
    let mut ids: Vec<usize> = Vec::new();
    for item in 0..9u64 {
        ids.push(pool.allocate(item));
    }
    assert_eq!(ids, vec![0, 1, 2, 3, 4, 5, 6, 7, 8]);
    let mut stacks: Stacks<u64> = Pool::new();
    for item in 0..20u64 {
        assert_eq!(stacks.allocate(item), item as usize);
    }
    assert_eq!(stacks.len(), 20);
}

fn check_flags_stay_complementary<T: Pool<u64>>(
    new: fn() -> T,
    capacity: fn(&T) -> usize,
    is_allocated: fn(&T, usize) -> bool,
    is_free: fn(&T, usize) -> bool,
) {
    let mut pool: T = new();
    let mut live: Vec<usize> = Vec::new();
    let mut last_capacity: usize = capacity(&pool);
    assert_eq!(last_capacity, 0);
    for step in 0..300u64 {
        if step % 3 == 2 {
            let id = live.remove((step as usize * 7) % live.len());
            pool.deallocate(id);
        } else {
            live.push(pool.allocate(step));
        }
        assert!(capacity(&pool) >= last_capacity);
        last_capacity = capacity(&pool);
        assert_eq!(pool.len(), live.len());
        for id in 0..last_capacity {
            assert!(is_allocated(&pool, id) != is_free(&pool, id));
            assert_eq!(is_allocated(&pool, id), live.contains(&id));
        }
    }
    assert_eq!(last_capacity, 128);
}

#[test]
fn each_slot_is_marked_as_taken_or_as_free_and_never_as_both() {
    check_flags_stay_complementary::<BoolFlags<u64>>(
        Pool::new,
        BoolFlags::capacity,
        BoolFlags::is_allocated,
        BoolFlags::is_free,
    );
    check_flags_stay_complementary::<BitFlags<u64>>(
        Pool::new,
        BitFlags::capacity,
        BitFlags::is_allocated,
        BitFlags::is_free,
    );
    check_flags_stay_complementary::<HierarchicalFlags<u64>>(
        Pool::new,
        HierarchicalFlags::capacity,
        HierarchicalFlags::is_allocated,
        HierarchicalFlags::is_free,
    );
}

#[test]
fn slots_go_from_none_to_one_and_then_double() {
    let mut pool: HierarchicalFlags<u64> = Pool::new();
    let mut capacities: Vec<usize> = vec![pool.capacity()];
    for item in 0..9u64 {
        pool.allocate(item);
        capacities.push(pool.capacity());
    }
    assert_eq!(capacities, vec![0, 1, 2, 4, 4, 8, 8, 8, 8, 16]);

    let mut sized: BitFlags<u64> = Pool::with_capacity(5);
    assert_eq!(sized.capacity(), 5);
    for item in 0..5u64 {
        sized.allocate(item);
        assert_eq!(sized.capacity(), 5);
    }
    sized.allocate(5);
    assert_eq!(sized.capacity(), 10);
    sized.deallocate(2);
    assert_eq!(sized.capacity(), 10);
    assert!(sized.is_free(2));
    assert!(!sized.is_allocated(2));
    assert!(sized.is_allocated(5));
    assert!(sized.is_free(9));
}
