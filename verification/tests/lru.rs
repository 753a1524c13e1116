use algorithms::lru_cache::LRUCache;

#[test]
fn test_1() {
    let mut cache = LRUCache::new(2);
    cache.put(1, 1);
    cache.put(2, 2);
    assert_eq!(cache.get(1), Some(1));
    cache.put(3, 3);
    assert_eq!(cache.get(2), None);
    cache.put(4, 4);
    assert_eq!(cache.get(1), None);
    assert_eq!(cache.get(3), Some(3));
    assert_eq!(cache.get(4), Some(4));
}

#[test]
fn capacity_bound_holds_after_every_put() {
    let mut cache = LRUCache::new(3);
    for k in 0..10 {
        cache.put(k, k * 10);
        assert!(cache.len() <= 3);
    }
}

#[test]
fn only_the_most_recent_keys_survive() {
    let mut cache = LRUCache::new(3);
    for k in 1..=5 {
        cache.put(k, k);
    }
    assert_eq!(cache.get(1), None);
    assert_eq!(cache.get(2), None);
    assert_eq!(cache.get(3), Some(3));
    assert_eq!(cache.get(4), Some(4));
    assert_eq!(cache.get(5), Some(5));
}

#[test]
fn get_refreshes_recency() {
    let mut cache = LRUCache::new(3);
    cache.put(1, 10);
    cache.put(2, 20);
    cache.put(3, 30);
    assert_eq!(cache.get(1), Some(10));
    cache.put(4, 40);
    assert_eq!(cache.get(2), None);
    assert_eq!(cache.get(1), Some(10));
    assert_eq!(cache.get(4), Some(40));
}

#[test]
fn update_keeps_a_single_entry() {
    let mut cache = LRUCache::new(2);
    cache.put(7, 1);
    cache.put(7, 2);
    assert_eq!(cache.len(), 1);
    assert_eq!(cache.get(7), Some(2));
    assert_eq!(cache.len(), 1);
}

#[test]
fn miss_leaves_the_cache_unchanged() {
    let mut cache = LRUCache::new(2);
    cache.put(1, 1);
    cache.put(2, 2);
    assert_eq!(cache.get(9), None);
    assert_eq!(cache.len(), 2);
    cache.put(3, 3);
    assert_eq!(cache.get(1), None);
    assert_eq!(cache.get(2), Some(2));
    assert_eq!(cache.get(3), Some(3));
}

#[test]
fn capacity_one_always_evicts() {
    let mut cache = LRUCache::new(1);
    cache.put(1, 1);
    cache.put(2, 2);
    assert_eq!(cache.get(1), None);
    assert_eq!(cache.get(2), Some(2));
    assert_eq!(cache.len(), 1);
}
