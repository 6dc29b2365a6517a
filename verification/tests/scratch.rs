//! The buffer pool.
use flock_core::field::F128;
use flock_core::scratch::{
    best_fit, clear, give_by, give_f128, park_by, prewarm_prover, smallest, take_all_by, take_by,
    take_f128, try_take_f128, Pool, MAX_POOLED,
};

/// The lengths of the pooled buffers.
fn lengths(pool: &Pool) -> Vec<usize> {
    pool.buffers.iter().map(|b| b.len()).collect()
}

/// The number of zeroed buffers of length `n`.
fn zeroed(pool: &Pool, n: usize) -> usize {
    pool.buffers.iter().filter(|b| **b == vec![F128::zero(); n]).count()
}

#[test]
fn take_reuses_given_buffer() {
    let mut pool = Pool::new();
    let mut v = take_f128(&mut pool, 1024);
    for slot in v.iter_mut() {
        *slot = F128 { lo: 7, hi: 9 };
    }
    let ptr = v.as_ptr();
    give_f128(&mut pool, v);
    // Same capacity request gets the same allocation back.
    let v2 = take_f128(&mut pool, 512);
    assert_eq!(v2.as_ptr(), ptr);
    assert_eq!(v2.len(), 512);
    clear(&mut pool);
}

#[test]
fn pool_is_bounded() {
    let mut pool = Pool::new();
    for _ in 0..(MAX_POOLED + 4) {
        let v = take_f128(&mut pool, 16);
        give_f128(&mut pool, v);
    }
    assert!(pool.buffers.len() <= MAX_POOLED);
    clear(&mut pool);
    assert_eq!(pool.buffers.len(), 0);
}

/// The tightest sufficient buffer is taken, the smallest one is given up.
#[test]
fn sizes_decide_which_buffer() {
    assert_eq!(best_fit(&[64, 16, 32, 16], 10), Some(1));
    assert_eq!(best_fit(&[64, 16, 32], 17), Some(2));
    assert_eq!(best_fit(&[64, 16, 32], 65), None);
    assert_eq!(best_fit(&[], 0), None);
    assert_eq!(smallest(&[5, 3, 9, 3]), 1);
}

/// Nothing is taken from an empty pool, and a taken buffer is zeroed.
#[test]
fn taken_buffers_are_zero() {
    let mut pool = Pool::new();
    assert!(try_take_f128(&mut pool, 4).is_none());
    give_f128(&mut pool, vec![F128 { lo: 1, hi: 2 }; 8]);
    let v = try_take_f128(&mut pool, 4).unwrap();
    assert_eq!(v, vec![F128::zero(); 4]);
    assert_eq!(pool.buffers.len(), 0);
    give_f128(&mut pool, Vec::new());
    assert_eq!(pool.buffers.len(), 0);
}

/// The buffers of a whole prove are parked.
#[test]
fn prewarming_parks_a_prove() {
    let mut pool = Pool::new();
    prewarm_prover(&mut pool, 6);
    assert_eq!(pool.buffers.len(), 0);
    prewarm_prover(&mut pool, 10);
    assert_eq!(pool.buffers.len(), 16);
    assert_eq!(pool.buffers.iter().filter(|b| b.len() == 16).count(), 5);
    assert_eq!(pool.buffers.iter().filter(|b| b.len() == 8).count(), 11);
}

/// For given capacities the tightest buffer is taken, and the smallest is evicted from a
/// full pool, be it the one that is given.
#[test]
fn capacities_decide_what_stays() {
    let mut pool = Pool::new();
    for len in [3usize, 1, 2] {
        give_f128(&mut pool, vec![F128::one(); len]);
    }
    assert!(take_by(&mut pool, &[30, 10, 20], 31).is_none());
    assert_eq!(pool.buffers.len(), 3);
    assert_eq!(take_by(&mut pool, &[30, 10, 20], 11), Some(vec![F128::zero(); 11]));
    let lens: Vec<usize> = pool.buffers.iter().map(|b| b.len()).collect();
    assert_eq!(lens, vec![3, 1]);

    give_by(&mut pool, vec![F128::one(); 9], &[30, 10, 0]);
    assert_eq!(pool.buffers.len(), 2);
    give_by(&mut pool, vec![F128::one(); 9], &[30, 10, 5]);
    assert_eq!(pool.buffers[2].len(), 9);

    let mut pool = Pool::new();
    for len in 1..=MAX_POOLED {
        give_f128(&mut pool, vec![F128::one(); len]);
    }
    let mut capacities: Vec<usize> = (0..=MAX_POOLED).map(|i| 100 + i).collect();
    capacities[4] = 7;
    give_by(&mut pool, vec![F128::one(); 50], &capacities);
    assert_eq!(pool.buffers.len(), MAX_POOLED);
    assert_eq!(pool.buffers[4].len(), 50);
    capacities[4] = 200;
    capacities[MAX_POOLED] = 7;
    give_by(&mut pool, vec![F128::one(); 60], &capacities);
    assert_eq!(pool.buffers.len(), MAX_POOLED);
    assert!(pool.buffers.iter().all(|b| b.len() != 60));
}

/// The large buffers are parked first, behind what the pool held.
#[test]
fn prewarming_keeps_the_order() {
    let set: Vec<usize> = [vec![2usize; 5], vec![1; 11]].concat();
    let mut pool = Pool::new();
    prewarm_prover(&mut pool, 7);
    assert_eq!(lengths(&pool), set);
    // What is there is used again.
    prewarm_prover(&mut pool, 7);
    assert_eq!(lengths(&pool), set);
    // There is room for eight others.
    let mut pool = Pool::new();
    for _ in 0..8 {
        give_f128(&mut pool, Vec::from([F128::one(); 3]));
    }
    prewarm_prover(&mut pool, 10);
    assert_eq!(pool.buffers.len(), 24);
    assert_eq!(lengths(&pool)[..8], [3; 8]);
    assert_eq!(lengths(&pool)[8..13], [16; 5]);
    assert_eq!(lengths(&pool)[13..], [8; 11]);
}

/// A pool that is warm already is warmed again, for a larger witness too.
#[test]
fn prewarming_twice() {
    for stale in [0usize, 9, 16, 19, 24] {
        let mut pool = Pool::new();
        for _ in 0..stale {
            give_f128(&mut pool, vec![F128::one(); 3]);
        }
        for m in [10usize, 10, 12, 13, 9] {
            let before = pool.buffers.len();
            prewarm_prover(&mut pool, m);
            assert!(pool.buffers.len() >= before.max(16));
            assert!(zeroed(&pool, 1 << (m - 6)) >= 5);
            assert!(zeroed(&pool, 1 << (m - 7)) >= if before <= 19 { 11 } else { 30 - before });
        }
    }
}

/// A full pool of buffers that fit the small class keeps the large buffers of the set, and
/// loses small ones for those that it held.
#[test]
fn prewarming_a_full_pool() {
    let mut pool = Pool::new();
    for _ in 0..MAX_POOLED {
        give_f128(&mut pool, vec![F128::one(); 12]);
    }
    prewarm_prover(&mut pool, 10);
    assert_eq!(pool.buffers.len(), MAX_POOLED);
    assert_eq!(zeroed(&pool, 16), 5);
    assert!(zeroed(&pool, 8) >= 6);
}

/// For given capacities it is settled which buffers are found, and which of the returned
/// ones stay.
#[test]
fn capacities_decide_what_is_parked() {
    let mut pool = Pool::new();
    for len in [3usize, 1, 2] {
        give_f128(&mut pool, vec![F128::one(); len]);
    }
    let (taken, left, found) = take_all_by(&mut pool, vec![30, 10, 20], &[11, 40, 9]);
    let lens: Vec<usize> = taken.iter().map(|b| b.len()).collect();
    assert_eq!(lens, vec![11, 40, 9]);
    assert_eq!(found, vec![Some(20), None, Some(10)]);
    assert_eq!(left, vec![30]);
    assert_eq!(lengths(&pool), vec![3]);
    park_by(&mut pool, left, taken, &[20, 0, 10]);
    assert_eq!(lengths(&pool), vec![3, 11, 9]);

    let mut pool = Pool::new();
    for len in 1..=MAX_POOLED {
        give_f128(&mut pool, vec![F128::one(); len]);
    }
    let capacities: Vec<usize> = (0..MAX_POOLED).map(|i| 100 + i).collect();
    let given = vec![vec![F128::one(); 50], vec![F128::one(); 60]];
    park_by(&mut pool, capacities, given, &[90, 300]);
    // The first is the smallest itself, the second takes the place of buffer 0.
    assert_eq!(pool.buffers.len(), MAX_POOLED);
    assert_eq!(pool.buffers[0].len(), 60);
    assert!(pool.buffers.iter().all(|b| b.len() != 50));
}
