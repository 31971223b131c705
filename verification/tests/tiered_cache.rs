use pdc::storage::tiered_cache::{TieredCache, TieredCacheConfig};

const SEC: u64 = 1_000_000_000;

fn test_config() -> TieredCacheConfig {
    TieredCacheConfig {
        hot_max_count: 3,
        warm_max_count: 3,
        hot_threshold_secs: 1,
        warm_threshold_secs: 2,
    }
}

fn key(k: &str) -> Vec<u8> {
    k.as_bytes().to_vec()
}

#[test]
fn test_put_and_get() {
    let mut cache = TieredCache::new(test_config());
    cache.put(key("key1"), "value1", 0);
    assert_eq!(cache.get(b"key1", 0), Some(&"value1"));
    assert_eq!(cache.len(), 1);
}

#[test]
fn test_get_miss() {
    let mut cache: TieredCache<&str> = TieredCache::new(test_config());
    assert_eq!(cache.get(b"missing", 0), None);
}

#[test]
fn test_get_or_load_hit() {
    let mut cache = TieredCache::new(test_config());
    cache.put(key("key1"), "value1", 0);
    let result = cache.get_or_load(b"key1", |_: &[u8]| panic!("nothing is to be loaded"), 0);
    assert_eq!(result, Some(&"value1"));
}

#[test]
fn test_get_or_load_miss_and_load() {
    let mut cache = TieredCache::new(test_config());
    let result = cache.get_or_load(b"key1", |_: &[u8]| Some("loaded_value"), 0);
    assert_eq!(result, Some(&"loaded_value"));
    assert_eq!(cache.get(b"key1", 0), Some(&"loaded_value"));
    let (_, _, cold_loaded) = cache.stats();
    assert_eq!(cold_loaded, 1);
}

#[test]
fn test_get_or_load_miss_and_not_found() {
    let mut cache: TieredCache<&str> = TieredCache::new(test_config());
    let result = cache.get_or_load(b"key1", |_: &[u8]| None, 0);
    assert_eq!(result, None);
    assert_eq!(cache.len(), 0);
}

#[test]
fn test_remove() {
    let mut cache = TieredCache::new(test_config());
    cache.put(key("key1"), "value1", 0);
    assert_eq!(cache.remove(b"key1"), Some("value1"));
    assert_eq!(cache.get(b"key1", 0), None);
    assert_eq!(cache.len(), 0);
}

#[test]
fn test_contains() {
    let mut cache = TieredCache::new(test_config());
    cache.put(key("key1"), "value1", 0);
    assert!(cache.contains(b"key1"));
    assert!(!cache.contains(b"key2"));
}

#[test]
fn test_hot_eviction_on_capacity() {
    let config = TieredCacheConfig {
        hot_max_count: 2,
        warm_max_count: 10,
        hot_threshold_secs: 100,
        warm_threshold_secs: 200,
    };
    let mut cache = TieredCache::new(config);
    cache.put(key("key1"), 1, 0);
    cache.put(key("key2"), 2, 0);
    cache.put(key("key3"), 3, 0);
    assert_eq!(cache.len(), 2);
    assert!(cache.contains(b"key2"));
    assert!(cache.contains(b"key3"));
    assert!(!cache.contains(b"key1"));
}

#[test]
fn test_tier_check_demotion() {
    let mut cache = TieredCache::new(test_config());
    cache.put(key("key1"), 1, 0);
    cache.put(key("key2"), 2, 0);
    let later = SEC + SEC / 10;
    let (demoted, evicted) = cache.tier_check(later);
    assert!(demoted >= 1);
    assert_eq!(evicted, 0);
    assert!(cache.get(b"key1", later).is_some());
}

#[test]
fn test_tier_check_eviction() {
    let mut cache = TieredCache::new(test_config());
    cache.put(key("key1"), 1, 0);
    cache.tier_check(SEC + SEC / 10);
    let (_demoted, evicted) = cache.tier_check(2 * SEC + SEC / 5);
    assert!(evicted >= 1);
    assert_eq!(cache.len(), 0);
}

#[test]
fn test_warm_promotion_on_get() {
    let mut cache = TieredCache::new(test_config());
    cache.put(key("key1"), 1, 0);
    let later = SEC + SEC / 10;
    cache.tier_check(later);
    let (hot, warm, _) = cache.stats();
    assert_eq!(hot, 0);
    assert_eq!(warm, 1);
    assert_eq!(cache.get(b"key1", later), Some(&1));
    let (hot, warm, _) = cache.stats();
    assert_eq!(hot, 1);
    assert_eq!(warm, 0);
}

#[test]
fn test_values_and_iter() {
    let mut cache = TieredCache::new(test_config());
    cache.put(key("key1"), 1, 0);
    cache.put(key("key2"), 2, 0);
    let values = cache.values();
    assert_eq!(values.len(), 2);
    assert!(values.contains(&&1));
    assert!(values.contains(&&2));
    let items = cache.iter();
    assert_eq!(items.len(), 2);
    assert_eq!(cache.hot_values(), vec![&2, &1]);
}

#[test]
fn test_clear() {
    let mut cache = TieredCache::new(test_config());
    cache.put(key("key1"), 1, 0);
    cache.put(key("key2"), 2, 0);
    cache.clear();
    assert_eq!(cache.len(), 0);
    assert!(cache.is_empty());
}

#[test]
fn test_emergency_evict() {
    let config = TieredCacheConfig {
        hot_max_count: 10,
        warm_max_count: 10,
        hot_threshold_secs: 100,
        warm_threshold_secs: 200,
    };
    let mut cache = TieredCache::new(config);
    for i in 0..5 {
        cache.put(format!("key{}", i).into_bytes(), i, 0);
    }
    assert_eq!(cache.len(), 5);
    let evicted = cache.emergency_evict(3);
    assert_eq!(evicted.len(), 3);
    assert_eq!(cache.len(), 2);
}

#[test]
fn test_put_if_absent() {
    let mut cache = TieredCache::new(test_config());
    assert!(cache.put_if_absent(key("key1"), 1, 0));
    assert!(!cache.put_if_absent(key("key1"), 2, 0));
    assert_eq!(cache.get(b"key1", 0), Some(&1));
}

#[test]
fn test_stats() {
    let mut cache = TieredCache::new(test_config());
    cache.put(key("key1"), 1, 0);
    cache.put(key("key2"), 2, 0);
    let (hot, warm, cold) = cache.stats();
    assert_eq!(hot, 2);
    assert_eq!(warm, 0);
    assert_eq!(cold, 0);
    cache.get_or_load(b"key3", |_: &[u8]| Some(3), 0);
    let (_, _, cold) = cache.stats();
    assert_eq!(cold, 1);
}

#[test]
fn least_recently_used_goes_first() {
    let mut cache = TieredCache::new(TieredCacheConfig { hot_max_count: 2, ..test_config() });
    cache.put(key("a"), 1, 0);
    cache.put(key("b"), 2, 0);
    assert_eq!(cache.get(b"a", 0), Some(&1));
    cache.put(key("c"), 3, 0);
    assert!(cache.contains(b"a"));
    assert!(!cache.contains(b"b"));
}

#[test]
fn values_are_changed_in_place() {
    let mut cache = TieredCache::new(test_config());
    cache.put(key("a"), 1, 0);
    assert!(cache.update(b"a", |v: i32| v + 1, 0));
    assert!(!cache.update_without_touch(b"b", |v: i32| v + 1));
    assert_eq!(cache.peek(b"a"), Some(&2));
}

#[test]
fn smaller_limits_take_hold() {
    let mut cache = TieredCache::new(test_config());
    cache.put(key("a"), 1, 0);
    cache.put(key("b"), 2, 0);
    cache.put(key("c"), 3, 0);
    cache.update_config(TieredCacheConfig { hot_max_count: 1, ..test_config() });
    cache.evict_if_needed();
    assert!(cache.stats().0 <= 1);
    cache.update_config(TieredCacheConfig { hot_max_count: usize::MAX, ..test_config() });
    cache.put(key("d"), 4, 0);
    assert_eq!(cache.peek(b"d"), Some(&4));
}
