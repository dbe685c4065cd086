use std::cell::Cell;

use memocache::LRUCache;

#[test]
fn simple_cache() {
    let mut result = LRUCache::<i32, i32>::new(3);
    result.get_or_compute(1, || { 7 });
    // panic is not called, so it really caches
    result.get_or_compute(1, || { panic!() });

    assert_eq!(result.get(&1).unwrap().clone(), 7);
    assert_eq!(result.size(), 1);
    assert_eq!(result.max_size(), 3);
}

#[test]
fn drop_not_used() {
    let mut result = LRUCache::<i32, i32>::new(3);
    result.get_or_compute(1, || { 5 });
    result.get_or_compute(2, || { 6 });
    result.get_or_compute(3, || { 7 });
    result.get_or_compute(4, || { 8 });

    assert!(result.get(&1).is_none());
    assert_eq!(result.get(&2).unwrap(), &6);
    assert_eq!(result.get(&3).unwrap(), &7);
    assert_eq!(result.get(&4).unwrap(), &8);
    assert_eq!(result.size(), 3);
    assert_eq!(result.max_size(), 3);
}

#[test]
fn get_refreshes_recency() {
    let mut cache = LRUCache::<i32, i32>::new(3);
    cache.get_or_compute(1, || 5);
    cache.get_or_compute(2, || 6);
    cache.get_or_compute(3, || 7);
    assert_eq!(cache.get(&1), Some(&5));
    cache.get_or_compute(4, || 8);

    assert!(cache.get(&2).is_none());
    assert_eq!(cache.get(&1), Some(&5));
    assert_eq!(cache.get(&3), Some(&7));
    assert_eq!(cache.get(&4), Some(&8));
    assert_eq!(cache.size(), 3);
}

#[test]
fn hit_refreshes_recency() {
    let mut cache = LRUCache::<i32, i32>::new(2);
    cache.get_or_compute(1, || 10);
    cache.get_or_compute(2, || 20);
    assert_eq!(*cache.get_or_compute(1, || 99), 10);
    cache.get_or_compute(3, || 30);

    assert!(cache.get(&2).is_none());
    assert_eq!(cache.get(&1), Some(&10));
    assert_eq!(cache.get(&3), Some(&30));
}

#[test]
fn compute_runs_once_per_key() {
    let calls = Cell::new(0);
    let mut cache = LRUCache::<u64, u64>::new(4);
    let first = *cache.get_or_compute(9, || {
        calls.set(calls.get() + 1);
        81
    });
    let second = *cache.get_or_compute(9, || {
        calls.set(calls.get() + 1);
        0
    });
    assert_eq!(first, 81);
    assert_eq!(second, 81);
    assert_eq!(calls.get(), 1);
}

#[test]
fn overflow_by_one_evicts_first_key() {
    let capacity: usize = 5;
    let mut cache = LRUCache::<usize, usize>::new(capacity);
    for k in 0..=capacity {
        cache.get_or_compute(k, || k * 100);
    }
    assert!(cache.get(&0).is_none());
    for k in 1..=capacity {
        assert_eq!(cache.get(&k), Some(&(k * 100)));
    }
    assert_eq!(cache.size(), capacity);
}

#[test]
fn size_never_exceeds_capacity() {
    let mut cache = LRUCache::<i32, i32>::new(2);
    for k in [1, 2, 1, 3, 4, 4, 5, 1, 2, 3] {
        cache.get_or_compute(k, || k + 1);
        cache.get(&(k - 1));
        assert!(cache.size() <= cache.max_size());
    }
    assert_eq!(cache.size(), 2);
}

#[test]
fn miss_on_get_changes_nothing() {
    let mut cache = LRUCache::<i32, i32>::new(1);
    assert!(cache.get(&1).is_none());
    assert_eq!(cache.size(), 0);
    cache.get_or_compute(1, || 1);
    assert!(cache.get(&2).is_none());
    assert_eq!(cache.get(&1), Some(&1));
    assert_eq!(cache.size(), 1);
}

#[test]
fn capacity_one_keeps_latest() {
    let mut cache = LRUCache::<i32, i32>::new(1);
    cache.get_or_compute(1, || 1);
    cache.get_or_compute(2, || 2);
    assert!(cache.get(&1).is_none());
    assert_eq!(cache.get(&2), Some(&2));
    assert_eq!(cache.size(), 1);
}
