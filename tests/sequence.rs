use parallel_collatz::cache::{Cache, CounterCache, MutexCache, NoCache, RwLockCache};
use parallel_collatz::collatz::{collatz, collatz_len_max, collatz_len_max_with_cache};

#[test]
fn one_is_its_own_sequence() {
    assert_eq!(collatz_len_max_with_cache(1, &NoCache::with_len(0)), (1, 1));
    assert_eq!(collatz_len_max(1), (1, 1));
    assert_eq!(collatz(1, Vec::new()), vec![1]);
}

#[test]
fn six_has_length_nine_and_peak_sixteen() {
    assert_eq!(collatz_len_max_with_cache(6, &NoCache::with_len(0)), (9, 16));
    assert_eq!(collatz_len_max(6), (9, 16));
}

#[test]
fn trail_of_six() {
    assert_eq!(collatz(6, Vec::new()), vec![3, 10, 5, 16, 8, 4, 2, 1, 1]);
    assert_eq!(collatz(2, vec![7]), vec![7, 1, 1]);
}

#[test]
fn reference_table_one_to_ten() {
    let expected: [(usize, u64); 10] =
        [(1, 1), (2, 2), (8, 16), (3, 4), (6, 16), (9, 16), (17, 52), (4, 8), (20, 52), (7, 16)];
    let mutex = MutexCache::with_len(100);
    let rwlock = RwLockCache::with_len(100);
    let counter = CounterCache::with_len(100);
    for (i, e) in expected.iter().enumerate() {
        let n = (i + 1) as u64;
        assert_eq!(collatz_len_max(n), *e);
        assert_eq!(collatz_len_max_with_cache(n, &NoCache::with_len(0)), *e);
        assert_eq!(collatz_len_max_with_cache(n, &mutex), *e);
        assert_eq!(collatz_len_max_with_cache(n, &rwlock), *e);
        assert_eq!(collatz_len_max_with_cache(n, &counter), *e);
    }
}

#[test]
fn long_sequences() {
    assert_eq!(collatz_len_max(27), (112, 9232));
    assert_eq!(collatz_len_max(97), (119, 9232));
    assert_eq!(collatz_len_max_with_cache(97, &RwLockCache::with_len(10)), (119, 9232));
    assert_eq!(collatz(27, Vec::new()).len(), 112);
}

#[test]
fn repeat_call_hits_the_cache() {
    let cache = CounterCache::with_len(100);
    let first = collatz_len_max_with_cache(9, &cache);
    let (attempts, hits) = cache.stats();
    let second = collatz_len_max_with_cache(9, &cache);
    let (attempts2, hits2) = cache.stats();
    assert_eq!(first, (20, 52));
    assert_eq!(second, first);
    assert!(attempts2 >= attempts + 1);
    assert!(hits2 >= hits + 1);
    assert_eq!(cache.get(9), (20, 52));
}

#[test]
fn intermediate_values_are_stored() {
    let cache = MutexCache::with_len(64);
    assert_eq!(collatz_len_max_with_cache(6, &cache), (9, 16));
    assert_eq!(cache.get(3), (8, 16));
    assert_eq!(cache.get(16), (5, 16));
    assert_eq!(cache.get(1), (0, 0));
}

#[test]
fn out_of_bounds_reads_absent() {
    let cache = RwLockCache::with_len(8);
    cache.set(3, (8, 16));
    assert_eq!(cache.get(8), (0, 0));
    assert_eq!(cache.get(8 + 1000), (0, 0));
    cache.set(8, (99, 99));
    cache.set(8 + 1000, (99, 99));
    assert_eq!(cache.get(3), (8, 16));
    assert_eq!(cache.get(7), (0, 0));
    assert_eq!(cache.get(8), (0, 0));
}

#[test]
fn out_of_bounds_on_every_strategy() {
    let m = MutexCache::with_len(4);
    let c = CounterCache::with_len(4);
    let z = NoCache::with_len(4);
    for i in [4usize, 1004] {
        m.set(i, (1, 1));
        c.set(i, (1, 1));
        z.set(i, (1, 1));
        assert_eq!(m.get(i), (0, 0));
        assert_eq!(c.get(i), (0, 0));
        assert_eq!(z.get(i), (0, 0));
    }
    assert_eq!(c.stats(), (2, 0));
}

#[test]
fn capacities() {
    assert_eq!(MutexCache::with_len(5).len(), 5);
    assert_eq!(RwLockCache::with_len(0).len(), 0);
    assert_eq!(CounterCache::with_len(3).len(), 3);
    assert_eq!(NoCache::with_len(7).len(), 0);
}

#[test]
fn stored_value_is_read_back() {
    let cache = CounterCache::with_len(10);
    assert_eq!(cache.get(6), (0, 0));
    cache.set(6, (9, 16));
    assert_eq!(cache.get(6), (9, 16));
    assert_eq!(cache.stats(), (2, 1));
}
