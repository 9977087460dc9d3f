use rs_lru::lru_k::LRUkCache;
use rs_lru::Cache;

#[test]
fn lru_k_test_cache() {
    let mut cache = LRUkCache::with_capacity_freq(2, 1).unwrap();

    // fcfo:(1,10) lru:
    cache.insert(1, 10);
    assert_eq!(cache.get(&1), Some(10));
    // fcfo: lru:(1,10)
    assert_eq!(cache.fcfo_len(), 0);
    assert_eq!(cache.lru_len(), 1);
    assert_eq!(cache.get(&1), Some(10));
    assert_eq!(cache.fcfo_len(), 0);
    // fcfo:(2,20) lru:(1,10)
    cache.insert(2, 20);
    assert_eq!(cache.fcfo_len(), 1);
    assert_eq!(cache.lru_len(), 1);
    // fcfo:(2,20) lru:(1,10)
    assert_eq!(cache.get(&1), Some(10));
    assert_eq!(cache.fcfo_len(), 1);
    assert_eq!(cache.lru_len(), 1);
    // fcfo:(3,30) lru:(1,10) disuse:(2,20)
    cache.insert(3, 30);
    assert_eq!(cache.fcfo_front(), Some(30));
    assert_eq!(cache.lru_front(), Some(10));
    assert_eq!(cache.get(&2), None);
    // fcfo:  lru: (3,30) (1,10)
    assert_eq!(cache.get(&3), Some(30));
    assert_eq!(cache.fcfo_len(), 0);
    assert_eq!(cache.lru_len(), 2);
    assert_eq!(cache.lru_front(), Some(30));
    // fcfo:(4,40) lru:(3,30)  disuse:(1,10)
    cache.insert(4, 40);
    assert_eq!(cache.fcfo_len(), 1);
    assert_eq!(cache.lru_len(), 1);
    assert_eq!(cache.lru_front(), Some(30));
    assert_eq!(cache.len(), 2);
    // fcfo:(4,40) lru:
    assert_eq!(cache.remove(&3).unwrap(), 30);
    assert_eq!(cache.lru_len(), 0);
    assert_eq!(cache.fcfo_front(), Some(40));
    assert_eq!(cache.len(), 1);
    // fcfo: (5,50) (6,60)
    assert_eq!(cache.insert(5, 50), None);
    assert_eq!(cache.insert(6, 60), None);
    // fcfo:empty
    assert_eq!(cache.remove(&5), Some(50));
    assert_eq!(cache.remove(&6), Some(60));
    assert_eq!(cache.is_emtpy(), true);
}

#[test]
fn lru_k_rejects_zero_capacity() {
    let cache: Option<LRUkCache<i32>> = LRUkCache::with_capacity_freq(0, 2);
    assert!(cache.is_none());
}

#[test]
fn lru_k_scenario_threshold_one() {
    let mut cache = LRUkCache::with_capacity_freq(2, 1).unwrap();
    assert_eq!(cache.insert(1, 10), None);
    // first access reaches the threshold and promotes key 1
    assert_eq!(cache.get(&1), Some(10));
    assert_eq!(cache.lru_len(), 1);
    // key 2 enters probationary
    assert_eq!(cache.insert(2, 20), None);
    // a third key evicts the probationary key 2, first-seen first
    assert_eq!(cache.insert(3, 30), None);
    assert_eq!(cache.get(&2), None);
    // looking key 3 up promotes it
    assert_eq!(cache.get(&3), Some(30));
    assert_eq!(cache.lru_len(), 2);
    assert_eq!(cache.fcfo_len(), 0);
}

#[test]
fn lru_k_promotion_threshold_two() {
    let mut cache = LRUkCache::with_capacity_freq(2, 2).unwrap();
    // key 1: two accesses reach the threshold and promote it
    assert_eq!(cache.insert(1, 100), None);
    assert_eq!(cache.get(&1), Some(100));
    assert_eq!(cache.fcfo_len(), 1);
    assert_eq!(cache.get(&1), Some(100));
    assert_eq!(cache.lru_len(), 1);
    // key 2: one access only, it stays probationary
    assert_eq!(cache.insert(2, 200), None);
    assert_eq!(cache.get(&2), Some(200));
    assert_eq!(cache.fcfo_len(), 1);
    // pressure evicts the probationary key 2, never the promoted key 1
    assert_eq!(cache.insert(3, 300), None);
    assert_eq!(cache.get(&2), None);
    assert_eq!(cache.get(&1), Some(100));
}

#[test]
fn lru_k_fifo_within_probationary() {
    let mut cache = LRUkCache::with_capacity_freq(2, 2).unwrap();
    // two probationary keys in insertion order, neither accessed
    assert_eq!(cache.insert(4, 40), None);
    assert_eq!(cache.insert(5, 50), None);
    // pressure evicts the earlier-inserted key 4 first, whatever the values
    assert_eq!(cache.insert(6, 60), None);
    assert_eq!(cache.get(&4), None);
    assert_eq!(cache.get(&5), Some(50));
    assert_eq!(cache.get(&6), Some(60));
}

#[test]
fn lru_k_update_returns_old_value() {
    let mut cache = LRUkCache::with_capacity_freq(2, 2).unwrap();
    assert_eq!(cache.insert(7, 70), None);
    assert_eq!(cache.insert(7, 71), Some(70));
    assert_eq!(cache.get(&7), Some(71));
}

#[test]
fn lru_k_remove_idempotent() {
    let mut cache = LRUkCache::with_capacity_freq(2, 1).unwrap();
    assert_eq!(cache.remove(&5), None);
    assert_eq!(cache.is_emtpy(), true);
    assert_eq!(cache.insert(5, 50), None);
    // promote 5, then remove it from the promoted queue
    assert_eq!(cache.get(&5), Some(50));
    assert_eq!(cache.remove(&5), Some(50));
    assert_eq!(cache.remove(&5), None);
    assert_eq!(cache.is_emtpy(), true);
}

#[test]
fn lru_k_capacity_never_exceeded() {
    let mut cache = LRUkCache::with_capacity_freq(3, 2).unwrap();
    for k in 0u64..20u64 {
        cache.insert(k, k);
        assert!(cache.len() <= 3);
    }
    assert_eq!(cache.len(), 3);
}

#[test]
fn lru_k_emptiness_agreement() {
    let mut cache = LRUkCache::with_capacity_freq(2, 1).unwrap();
    assert_eq!(cache.is_emtpy(), true);
    assert_eq!(cache.get(&1), None);
    assert_eq!(cache.insert(1, 10), None);
    assert_eq!(cache.is_emtpy(), false);
    assert_eq!(cache.remove(&1), Some(10));
    assert_eq!(cache.is_emtpy(), true);
    assert_eq!(cache.get(&1), None);
}

#[test]
fn lru_k_through_cache_trait() {
    let mut cache = LRUkCache::with_capacity_freq(2, 1).unwrap();
    assert_eq!(Cache::insert(&mut cache, 1, 10), None);
    assert_eq!(Cache::get(&mut cache, &1), Some(10));
    assert_eq!(Cache::remove(&mut cache, &1), Some(10));
    assert_eq!(Cache::is_emtpy(&cache), true);
}
