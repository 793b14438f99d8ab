use item_pool::flag_based::{BitFlags, BoolFlags, HierarchicalFlags};
use item_pool::freelist::FreeList;
use item_pool::notsafe::NotSafe;
use item_pool::reference::Reference;
use item_pool::simple::Simple;
use item_pool::stacks::Stacks;
use item_pool::{Pool, Traversal};
use rand::Rng;
use rand::SeedableRng;
use rand_xoshiro::Xoshiro256StarStar;
use std::collections::HashMap;
use std::hash::{Hash, Hasher};

type Item = i32;

fn items_of<T: Pool<Item>>(pool: &T) -> Vec<Item> {
    let mut items: Vec<Item> = Vec::new();
    let mut iter = pool.iter();
    while let Some(item) = iter.next() {
        items.push(*item);
    }
    items
}

// Should panic
fn check_invalid_get_to_empty_pool<T: Pool<Item>>() {
    let pool: T = Pool::new();
    pool.get(3);
}

// Should panic
fn check_invalid_get_to_nonempty_pool<T: Pool<Item>>() {
    let mut pool: T = Pool::new();
    let mut ids: Vec<usize> = Vec::new();
    for _ in 0..128 {
        let id: usize = pool.allocate(0);
        ids.push(id);
    }

    pool.deallocate(ids[0]);
    pool.get(ids[0]);
}

fn check_one_item<T: Pool<Item>>() {
    let mut pool: T = Pool::new();

    let id: usize = pool.allocate(72);
    assert!(pool.len() == 1);
    assert!(items_of(&pool) == vec![72]);

    pool.deallocate(id);
    assert!(pool.len() == 0);
    assert!(pool.iter().next().is_none());
}

fn check_many_items<T: Pool<Item>>() {
    let mut pool: T = Pool::new();
    let mut map: HashMap<usize, Item> = HashMap::new();
    for i in 0..3827 {
        let item: Item = i;
        let id: usize = pool.allocate(item);
        map.insert(id, item);
    }

    for id in map.clone().keys() {
        if id / 2 % 3 == 0 {
            pool.deallocate(*id);
            map.remove(id);
        }
    }

    assert!(pool.len() == map.len());

    for id in map.keys() {
        assert!(pool.get(*id) == map.get(id).unwrap());
    }

    let mut pool_items: Vec<Item> = items_of(&pool);
    let mut map_items: Vec<Item> = map.values().cloned().collect();
    pool_items.sort();
    map_items.sort();
    assert!(pool_items == map_items);
}

fn check_many_pools_few_mutations<T: Pool<Item>>() {
    const NUM_POOLS_TO_FUZZ: usize = 10_000;
    const MAX_NUM_MUTATIONS: usize = 10;
    fuzz_many_item_pools::<T>(NUM_POOLS_TO_FUZZ, MAX_NUM_MUTATIONS);
}

fn check_few_pools_many_mutations<T: Pool<Item>>() {
    const NUM_POOLS_TO_FUZZ: usize = 100;
    const MAX_NUM_MUTATIONS: usize = 1000;
    fuzz_many_item_pools::<T>(NUM_POOLS_TO_FUZZ, MAX_NUM_MUTATIONS);
}

#[derive(Clone, Copy, PartialEq, Eq)]
struct PairOfIds {
    id_in_test: usize,
    id_in_reference: usize,
}

impl Hash for PairOfIds {
    fn hash<H: Hasher>(&self, state: &mut H) {
        state.write_usize(self.id_in_test);
        state.write_usize(self.id_in_reference);
    }
}

struct Allocations {
    map: HashMap<PairOfIds, usize>, // ids -> index in vec that contains ids
    vec: Vec<PairOfIds>,
}

impl Allocations {
    pub fn new() -> Self {
        return Self {
            map: HashMap::default(),
            vec: Vec::new(),
        };
    }

    pub fn add(&mut self, ids: PairOfIds) {
        self.map.insert(ids, self.vec.len());
        self.vec.push(ids);
    }

    // Removes ids in O(1) time
    pub fn remove(&mut self, removed_ids: PairOfIds) {
        let index_of_removed_ids: usize = *self.map.get(&removed_ids).unwrap();
        let index_of_last_ids: usize = self.vec.len() - 1;
        if index_of_removed_ids != index_of_last_ids {
            let last_ids: PairOfIds = self.vec[index_of_last_ids];
            self.vec[index_of_removed_ids] = last_ids;
            self.map.insert(last_ids, index_of_removed_ids);
        }
        self.vec.pop().unwrap();
        self.map.remove(&removed_ids);
    }

    pub fn get_random_pair_of_ids<T: Rng>(&self, rng: &mut T) -> Option<PairOfIds> {
        if self.vec.is_empty() {
            return None;
        }

        let index: usize = rng.gen_range(0..self.len());
        return Some(self.vec[index]);
    }

    pub fn len(&self) -> usize {
        return self.map.len();
    }

    pub fn pairs_of_ids(&self) -> impl Iterator<Item = &PairOfIds> {
        return self.vec.iter();
    }
}

// Constructions
const NEW: usize = 0;
const WITH_CAPACITY: usize = 1;

#[derive(Clone, Copy, Debug)]
enum Construction {
    New,
    WithCapacity { capacity: usize },
}

fn generate_random_construction<T: Rng>(rng: &mut T) -> Construction {
    const MAX_CAPACITY: usize = 10_000;
    let construction: usize = rng.gen_range(NEW..=WITH_CAPACITY);
    match construction {
        NEW => return Construction::New,

        WITH_CAPACITY => {
            let capacity: usize = rng.gen_range(0..MAX_CAPACITY);
            return Construction::WithCapacity { capacity };
        }

        _ => unreachable!(),
    }
}

// Mutations
const SET: usize = 0;
const ALLOCATE: usize = 1;
const DEALLOCATE: usize = 2;
const NUM_MUTATIONS: usize = 3;

#[allow(dead_code)]
#[derive(Clone, Copy, Debug)]
enum Mutation {
    SetItem {
        id_in_test: usize,
        id_in_reference: usize,
        value: Item,
    },
    Allocate {
        item: Item,
    },
    Deallocate {
        id_in_test: usize,
        id_in_reference: usize,
    },
}

struct MutationGenerator {
    tokens: [usize; NUM_MUTATIONS],
    total_num_tokens: usize,
}

impl MutationGenerator {
    const MAX_NUM_TOKENS: usize = 10;

    pub fn new<T: Rng>(rng: &mut T) -> Self {
        let mut tokens: [usize; NUM_MUTATIONS] = [0; NUM_MUTATIONS];
        let mut total_num_tokens: usize = 0;
        for mutation in 0..NUM_MUTATIONS {
            let num_tokens: usize = rng.gen_range(1..=Self::MAX_NUM_TOKENS);
            tokens[mutation] = num_tokens;
            total_num_tokens += num_tokens;
        }

        assert!(tokens.iter().cloned().all(|num_tokens| num_tokens > 0));

        return Self {
            tokens,
            total_num_tokens,
        };
    }

    pub fn generate<T: Rng>(&mut self, rng: &mut T) -> usize {
        let token: usize = rng.gen_range(1..=self.total_num_tokens);
        let mut num_tokens_so_far: usize = 0;
        for mutation in 0..self.tokens.len() {
            assert!(token > num_tokens_so_far);
            let token: usize = token - num_tokens_so_far;
            if token <= self.tokens[mutation] {
                return mutation;
            }
            num_tokens_so_far += self.tokens[mutation];
        }
        unreachable!();
    }
}

#[derive(Debug)]
enum EqualityError {
    NumItemsDontMatch,
    ItemsDontMatch,
    GetsDontMatch,
}

fn compare_for_equality<T: Pool<Item>>(
    test: &T,
    reference: &Reference<Item>,
    allocations: &Allocations,
) -> Result<(), EqualityError> {
    if test.len() != reference.len() {
        return Err(EqualityError::NumItemsDontMatch);
    }

    let mut items_in_test: Vec<Item> = items_of(test);
    let mut items_in_reference: Vec<Item> = items_of(reference);
    items_in_test.sort();
    items_in_reference.sort();
    if items_in_test != items_in_reference {
        return Err(EqualityError::ItemsDontMatch);
    }

    for pair in allocations.pairs_of_ids() {
        if *test.get(pair.id_in_test) != *reference.get(pair.id_in_reference) {
            return Err(EqualityError::GetsDontMatch);
        }
    }

    return Ok(());
}

#[allow(dead_code)]
#[derive(Clone, Copy, Debug)]
enum LogEntry {
    Construction(Construction),
    Mutation(Mutation),
}

fn fuzz<T: Rng, U: Pool<Item>>(rng: &mut T, num_mutations_to_try: usize) {
    let mut log: Vec<LogEntry> = Vec::new();
    let mut allocations: Allocations = Allocations::new();

    let mut test: U;
    let mut reference: Reference<Item>;
    match generate_random_construction(rng) {
        Construction::New => {
            test = Pool::new();
            reference = Pool::new();
            log.push(LogEntry::Construction(Construction::New));
        }

        Construction::WithCapacity { capacity } => {
            test = Pool::with_capacity(capacity);
            reference = Pool::with_capacity(capacity);
            log.push(LogEntry::Construction(Construction::WithCapacity {
                capacity,
            }));
        }
    }

    if let Err(error) = compare_for_equality(&test, &reference, &allocations) {
        panic!("{:?}\n{:?}", error, log);
    }

    const MAX_NUM_ITEMS_TO_ALLOCATE: usize = 100_000; // don't want to OoM
    let mut generator: MutationGenerator = MutationGenerator::new(rng);
    for _ in 0..num_mutations_to_try {
        match generator.generate(rng) {
            SET => {
                if reference.len() == 0 {
                    continue;
                }

                let pair: PairOfIds = allocations.get_random_pair_of_ids(rng).unwrap();
                let id_in_test: usize = pair.id_in_test;
                let id_in_reference: usize = pair.id_in_reference;
                let value: Item = generate_random_item(rng);
                *test.get_mut(id_in_test) = value;
                *reference.get_mut(id_in_reference) = value;

                log.push(LogEntry::Mutation(Mutation::SetItem {
                    id_in_test,
                    id_in_reference,
                    value,
                }));
            }

            ALLOCATE => {
                if reference.len() >= MAX_NUM_ITEMS_TO_ALLOCATE {
                    continue;
                }

                let item: Item = generate_random_item(rng);
                let id_in_test: usize = test.allocate(item);
                let id_in_reference: usize = reference.allocate(item);
                allocations.add(PairOfIds {
                    id_in_test,
                    id_in_reference,
                });

                log.push(LogEntry::Mutation(Mutation::Allocate { item }));
            }

            DEALLOCATE => {
                if reference.len() == 0 {
                    continue;
                }

                let pair: PairOfIds = allocations.get_random_pair_of_ids(rng).unwrap();
                let id_in_test: usize = pair.id_in_test;
                let id_in_reference: usize = pair.id_in_reference;
                test.deallocate(id_in_test);
                reference.deallocate(id_in_reference);
                allocations.remove(pair);

                log.push(LogEntry::Mutation(Mutation::Deallocate {
                    id_in_test,
                    id_in_reference,
                }));
            }

            _ => unreachable!(),
        }

        if let Err(error) = compare_for_equality(&test, &reference, &allocations) {
            panic!("{:?}\n{:?}", error, log);
        }
    }
}

fn fuzz_many_item_pools<T: Pool<Item>>(num_pools_to_fuzz: usize, max_num_mutations: usize) {
    // A deterministic generator, seeded with the same value every time, makes
    // these tests reproducible.
    const RNG_SEED: u64 = 2049;
    let mut rng: Xoshiro256StarStar = Xoshiro256StarStar::seed_from_u64(RNG_SEED);

    for _ in 0..num_pools_to_fuzz {
        fuzz::<_, T>(&mut rng, max_num_mutations);
    }
}

fn generate_random_item<T: Rng>(rng: &mut T) -> Item {
    return rng.gen_range(Item::MIN..=Item::MAX);
}

// Pools on a hierarchical bit vector

#[test]
#[should_panic]
fn mod_test_invalid_get_to_empty_pool() {
    check_invalid_get_to_empty_pool::<HierarchicalFlags<Item>>();
}

#[test]
#[should_panic]
fn mod_test_invalid_get_to_nonempty_pool() {
    check_invalid_get_to_nonempty_pool::<HierarchicalFlags<Item>>();
}

#[test]
fn mod_test_one_item() {
    check_one_item::<HierarchicalFlags<Item>>();
}

#[test]
fn mod_test_many_items() {
    check_many_items::<HierarchicalFlags<Item>>();
}

#[test]
fn mod_fuzz_many_pools_few_mutations() {
    check_many_pools_few_mutations::<HierarchicalFlags<Item>>();
}

#[test]
fn mod_fuzz_few_pools_many_mutations() {
    check_few_pools_many_mutations::<HierarchicalFlags<Item>>();
}

// Pools on a flat bit vector

#[test]
#[should_panic]
fn test_invalid_get_to_empty_pool() {
    check_invalid_get_to_empty_pool::<BitFlags<Item>>();
}

#[test]
#[should_panic]
fn test_invalid_get_to_nonempty_pool() {
    check_invalid_get_to_nonempty_pool::<BitFlags<Item>>();
}

#[test]
fn test_one_item() {
    check_one_item::<BitFlags<Item>>();
}

#[test]
fn test_many_items() {
    check_many_items::<BitFlags<Item>>();
}

#[test]
fn fuzz_many_pools_few_mutations() {
    check_many_pools_few_mutations::<BitFlags<Item>>();
}

#[test]
fn fuzz_few_pools_many_mutations() {
    check_few_pools_many_mutations::<BitFlags<Item>>();
}

// Pools on a vector of booleans

#[test]
fn bool_flags_test_one_item() {
    check_one_item::<BoolFlags<Item>>();
}

#[test]
fn bool_flags_test_many_items() {
    check_many_items::<BoolFlags<Item>>();
}

#[test]
fn bool_flags_fuzz_many_pools_few_mutations() {
    check_many_pools_few_mutations::<BoolFlags<Item>>();
}

#[test]
fn bool_flags_fuzz_few_pools_many_mutations() {
    check_few_pools_many_mutations::<BoolFlags<Item>>();
}

// Simple

#[test]
#[should_panic]
fn simple_test_invalid_get_to_empty_pool() {
    check_invalid_get_to_empty_pool::<Simple<Item>>();
}

#[test]
#[should_panic]
fn simple_test_invalid_get_to_nonempty_pool() {
    check_invalid_get_to_nonempty_pool::<Simple<Item>>();
}

#[test]
fn simple_test_one_item() {
    check_one_item::<Simple<Item>>();
}

#[test]
fn simple_test_many_items() {
    check_many_items::<Simple<Item>>();
}

#[test]
fn simple_fuzz_many_pools_few_mutations() {
    check_many_pools_few_mutations::<Simple<Item>>();
}

#[test]
fn simple_fuzz_few_pools_many_mutations() {
    check_few_pools_many_mutations::<Simple<Item>>();
}

// FreeList

#[test]
#[should_panic]
fn freelist_test_invalid_get_to_empty_pool() {
    check_invalid_get_to_empty_pool::<FreeList<Item>>();
}

#[test]
#[should_panic]
fn freelist_test_invalid_get_to_nonempty_pool() {
    check_invalid_get_to_nonempty_pool::<FreeList<Item>>();
}

#[test]
fn freelist_test_one_item() {
    check_one_item::<FreeList<Item>>();
}

#[test]
fn freelist_test_many_items() {
    check_many_items::<FreeList<Item>>();
}

#[test]
fn freelist_fuzz_many_pools_few_mutations() {
    check_many_pools_few_mutations::<FreeList<Item>>();
}

#[test]
fn freelist_fuzz_few_pools_many_mutations() {
    check_few_pools_many_mutations::<FreeList<Item>>();
}

// Stacks

#[test]
#[should_panic]
fn stacks_test_invalid_get_to_empty_pool() {
    check_invalid_get_to_empty_pool::<Stacks<Item>>();
}

#[test]
#[should_panic]
fn stacks_test_invalid_get_to_nonempty_pool() {
    check_invalid_get_to_nonempty_pool::<Stacks<Item>>();
}

#[test]
fn stacks_test_one_item() {
    check_one_item::<Stacks<Item>>();
}

#[test]
fn stacks_test_many_items() {
    check_many_items::<Stacks<Item>>();
}

#[test]
fn stacks_fuzz_many_pools_few_mutations() {
    check_many_pools_few_mutations::<Stacks<Item>>();
}

#[test]
fn stacks_fuzz_few_pools_many_mutations() {
    check_few_pools_many_mutations::<Stacks<Item>>();
}

// NotSafe

#[test]
#[should_panic]
fn notsafe_test_invalid_get_to_empty_pool() {
    check_invalid_get_to_empty_pool::<NotSafe<Item>>();
}

#[test]
#[should_panic]
fn notsafe_test_invalid_get_to_nonempty_pool() {
    check_invalid_get_to_nonempty_pool::<NotSafe<Item>>();
}

#[test]
fn notsafe_test_one_item() {
    check_one_item::<NotSafe<Item>>();
}

#[test]
fn notsafe_test_many_items() {
    check_many_items::<NotSafe<Item>>();
}

#[test]
fn notsafe_fuzz_many_pools_few_mutations() {
    check_many_pools_few_mutations::<NotSafe<Item>>();
}

#[test]
fn notsafe_fuzz_few_pools_many_mutations() {
    check_few_pools_many_mutations::<NotSafe<Item>>();
}
