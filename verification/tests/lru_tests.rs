use rs_lru::lru::LRUCache;
use rs_lru::Cache;

#[test]
fn lru_test_cache() {
    let mut cache = LRUCache::with_capacity(2).unwrap();

    // insert full
    assert_eq!(cache.insert(1, 100), None);
    assert_eq!(cache.is_emtpy(), false);
    assert_eq!(cache.insert(2, 200), None);
    assert_eq!(cache.is_emtpy(), false);

    // test lru strategy
    // head:(2,200) tail:(1,100)
    assert_eq!(cache.get(&1), Some(100));
    assert_eq!(cache.is_emtpy(), false);
    // head:(1,100) tail:(2,200) disuse:(2,200)
    assert_eq!(cache.insert(3, 300), None);
    assert_eq!(cache.is_emtpy(), false);
    // head:(3,300) tail:(1,100)
    assert_eq!(cache.get(&1), Some(100));
    assert_eq!(cache.is_emtpy(), false);
    assert_eq!(cache.get(&2), None);
    assert_eq!(cache.is_emtpy(), false);
    // head:(3,300) tail:(1,100) disuse:(1,100)
    assert_eq!(cache.insert(4, 400), None);
    assert_eq!(cache.is_emtpy(), false);
    // head:(4,400) tail:(3,300) disuse:(3,300)
    assert_eq!(cache.insert(5, 500), None);
    assert_eq!(cache.is_emtpy(), false);
    // head:(5,500) tail:(4,400)
    assert_eq!(cache.get(&3), None);
    assert_eq!(cache.is_emtpy(), false);
    assert_eq!(cache.get(&4), Some(400));
    assert_eq!(cache.is_emtpy(), false);
    // head:(5,500) tail:(4,400) disuse:(4,400)
    assert_eq!(cache.insert(6, 600), None);
    assert_eq!(cache.is_emtpy(), false);
    // head:(6,600) tail:(5,500)
    assert_eq!(cache.get(&2), None);
    assert_eq!(cache.is_emtpy(), false);
    assert_eq!(cache.get(&6), Some(600));
    assert_eq!(cache.is_emtpy(), false);
    // head:(6,600) tail:(5,500) change:(6,600)->(6,700)
    assert_eq!(cache.insert(6, 700), Some(600));
    assert_eq!(cache.is_emtpy(), false);
    // head:(6,700) tail:(5,500) disuse:(5,500)
    assert_eq!(cache.insert(8, 800), None);
    assert_eq!(cache.is_emtpy(), false);
    // head:(8,800) tail:(6,700)
    assert_eq!(cache.get(&5), None);
    assert_eq!(cache.is_emtpy(), false);
    assert_eq!(cache.get(&8), Some(800));
    assert_eq!(cache.is_emtpy(), false);
    assert_eq!(cache.get(&6), Some(700));
    assert_eq!(cache.is_emtpy(), false);
    // remove
    assert_eq!(cache.remove(&6), Some(700));
    assert_eq!(cache.is_emtpy(), false);
    assert_eq!(cache.get(&6), None);
    assert_eq!(cache.is_emtpy(), false);
    assert_eq!(cache.remove(&8), Some(800));
    assert_eq!(cache.is_emtpy(), true);
    assert_eq!(cache.get(&8), None);
    assert_eq!(cache.is_emtpy(), true);
}

#[test]
fn lru_rejects_zero_capacity() {
    let cache: Option<LRUCache<i32>> = LRUCache::with_capacity(0);
    assert!(cache.is_none());
}

#[test]
fn lru_scenario_capacity_two() {
    let mut cache = LRUCache::with_capacity(2).unwrap();
    assert_eq!(cache.insert(1, 100), None);
    assert_eq!(cache.insert(2, 200), None);
    // a hit on 1 makes it most recently used
    assert_eq!(cache.get(&1), Some(100));
    // 2 is now least recently used and leaves
    assert_eq!(cache.insert(3, 300), None);
    assert_eq!(cache.get(&2), None);
    assert_eq!(cache.get(&1), Some(100));
    assert_eq!(cache.get(&3), Some(300));
}

#[test]
fn lru_recency_eviction() {
    // capacity + 1 distinct inserts with no lookup: the first key leaves
    let mut cache = LRUCache::with_capacity(3).unwrap();
    assert_eq!(cache.insert(11, 1), None);
    assert_eq!(cache.insert(12, 2), None);
    assert_eq!(cache.insert(13, 3), None);
    assert_eq!(cache.insert(14, 4), None);
    assert_eq!(cache.get(&11), None);
    assert_eq!(cache.get(&12), Some(2));
    assert_eq!(cache.get(&13), Some(3));
    assert_eq!(cache.get(&14), Some(4));
}

#[test]
fn lru_capacity_never_exceeded() {
    // capacity 2: of any three distinct keys inserted, at most two answer
    let mut cache = LRUCache::with_capacity(2).unwrap();
    for k in 0u64..10u64 {
        cache.insert(k, k);
    }
    let mut held: usize = 0;
    for k in 0u64..10u64 {
        if cache.get(&k).is_some() {
            held += 1;
        }
    }
    assert_eq!(held, 2);
}

#[test]
fn lru_update_returns_old_value() {
    let mut cache = LRUCache::with_capacity(2).unwrap();
    assert_eq!(cache.insert(7, 70), None);
    assert_eq!(cache.insert(7, 71), Some(70));
    assert_eq!(cache.get(&7), Some(71));
}

#[test]
fn lru_remove_idempotent() {
    let mut cache = LRUCache::with_capacity(2).unwrap();
    assert_eq!(cache.remove(&5), None);
    assert_eq!(cache.is_emtpy(), true);
    assert_eq!(cache.insert(5, 50), None);
    assert_eq!(cache.insert(6, 60), None);
    assert_eq!(cache.remove(&5), Some(50));
    assert_eq!(cache.remove(&5), None);
    // the other entry is untouched
    assert_eq!(cache.get(&6), Some(60));
}

#[test]
fn lru_emptiness_agreement() {
    let mut cache = LRUCache::with_capacity(2).unwrap();
    assert_eq!(cache.is_emtpy(), true);
    assert_eq!(cache.get(&1), None);
    assert_eq!(cache.insert(1, 10), None);
    assert_eq!(cache.is_emtpy(), false);
    assert_eq!(cache.remove(&1), Some(10));
    assert_eq!(cache.is_emtpy(), true);
    assert_eq!(cache.get(&1), None);
}

#[test]
fn lru_through_cache_trait() {
    let mut cache = LRUCache::with_capacity(2).unwrap();
    assert_eq!(Cache::insert(&mut cache, 1, 10), None);
    assert_eq!(Cache::get(&mut cache, &1), Some(10));
    assert_eq!(Cache::remove(&mut cache, &1), Some(10));
    assert_eq!(Cache::is_emtpy(&cache), true);
}
