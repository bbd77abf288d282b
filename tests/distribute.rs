use parallel_collatz::cache::{Cache, CounterCache, MutexCache, NoCache, RwLockCache};
use parallel_collatz::distribute::{absorb, best_in_range, claim, empty_best, merge, Best};
use parallel_collatz::indexed_value::IndexedValue;

/// Hands out `start..` from one counter to `workers` workers in turn, each
/// stopping at its first claim past `end`; records which indices each one
/// absorbed. Returns the merged result.
fn round_robin<C: Cache>(
    start: usize,
    end: usize,
    workers: usize,
    cache: &C,
    seen: &mut Vec<usize>,
) -> Best {
    let mut counter = start;
    let mut bests: Vec<Best> = (0..workers).map(|_| empty_best()).collect();
    let mut running = vec![true; workers];
    while running.iter().any(|r| *r) {
        for w in 0..workers {
            if running[w] {
                let n = counter;
                counter += 1;
                if claim(&mut bests[w], n, end, cache) {
                    seen.push(n);
                } else {
                    running[w] = false;
                }
            }
        }
    }
    let mut total = empty_best();
    for b in bests.iter().rev() {
        total = merge(total, *b);
    }
    total
}

#[test]
fn one_to_ten_with_four_workers() {
    let mut seen = Vec::new();
    let (len, peak) = round_robin(1, 10, 4, &NoCache::with_len(0), &mut seen);
    assert_eq!(len, IndexedValue { n: 9, value: 20 });
    assert_eq!(peak, IndexedValue { n: 7, value: 52 });
}

#[test]
fn single_pass_one_to_ten() {
    let (len, peak) = best_in_range(1, 10, &NoCache::with_len(0));
    assert_eq!(len, IndexedValue { n: 9, value: 20 });
    assert_eq!(peak, IndexedValue { n: 7, value: 52 });
}

#[test]
fn one_to_hundred() {
    let (len, peak) = best_in_range(1, 100, &RwLockCache::with_len(1000));
    assert_eq!(len, IndexedValue { n: 97, value: 119 });
    assert_eq!(peak, IndexedValue { n: 27, value: 9232 });
}

#[test]
fn same_result_for_any_worker_count_and_cache() {
    let expected = best_in_range(1, 100, &NoCache::with_len(0));
    for workers in [1usize, 2, 3, 36] {
        let mut seen = Vec::new();
        assert_eq!(round_robin(1, 100, workers, &NoCache::with_len(0), &mut seen), expected);
        let mut seen = Vec::new();
        assert_eq!(round_robin(1, 100, workers, &MutexCache::with_len(1000), &mut seen), expected);
        let mut seen = Vec::new();
        assert_eq!(round_robin(1, 100, workers, &RwLockCache::with_len(50), &mut seen), expected);
        let mut seen = Vec::new();
        assert_eq!(round_robin(1, 100, workers, &CounterCache::with_len(1000), &mut seen), expected);
    }
}

#[test]
fn every_index_evaluated_once() {
    for workers in 1usize..=10 {
        let mut seen = Vec::new();
        round_robin(1, 10, workers, &NoCache::with_len(0), &mut seen);
        seen.sort();
        assert_eq!(seen, (1..=10).collect::<Vec<usize>>());
    }
}

#[test]
fn empty_range_gives_no_data() {
    let none = IndexedValue { n: 0, value: 0 };
    assert_eq!(best_in_range(5, 4, &NoCache::with_len(0)), (none, IndexedValue { n: 0, value: 0 }));
    let mut seen = Vec::new();
    assert_eq!(round_robin(5, 4, 3, &NoCache::with_len(0), &mut seen), empty_best());
    assert!(seen.is_empty());
    let mut seen = Vec::new();
    assert_eq!(round_robin(1, 10, 0, &NoCache::with_len(0), &mut seen), empty_best());
}

#[test]
fn claim_past_end_changes_nothing() {
    let mut best = empty_best();
    assert!(!claim(&mut best, 11, 10, &NoCache::with_len(0)));
    assert_eq!(best, empty_best());
    assert!(claim(&mut best, 10, 10, &NoCache::with_len(0)));
    assert_eq!(best, (IndexedValue { n: 10, value: 7 }, IndexedValue { n: 10, value: 16 }));
}

#[test]
fn absorb_and_merge() {
    let c = MutexCache::with_len(100);
    let a = absorb(empty_best(), 3, &c);
    assert_eq!(a, (IndexedValue { n: 3, value: 8 }, IndexedValue { n: 3, value: 16 }));
    let b = absorb(empty_best(), 6, &c);
    assert_eq!(b, (IndexedValue { n: 6, value: 9 }, IndexedValue { n: 6, value: 16 }));
    assert_eq!(merge(a, b), (IndexedValue { n: 6, value: 9 }, IndexedValue { n: 3, value: 16 }));
    assert_eq!(merge(b, a), merge(a, b));
}
