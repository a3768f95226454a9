use pokecache::cache::{CacheError, InmemoryCache};
use pokecache::config::CacheConfig;

#[test]
fn test_cache_basic_operations() {
    let config = CacheConfig {
        kind: "memory".to_string(),
        max_size: 3,
        expiration: 3600,
    };

    let mut cache: InmemoryCache<String> = InmemoryCache::new(config);
    let pokemon_json = r#"{"id": 25, "name": "pikachu"}"#.to_string();

    // Test insert and get
    assert!(cache.insert("25".to_string(), pokemon_json.clone()).is_ok());

    let retrieved = cache.get("25");
    assert!(retrieved.is_some());
    assert!(retrieved.unwrap().contains("pikachu"));

    // Test cache miss
    assert!(cache.get("1").is_none());
}

#[test]
fn test_cache_eviction() {
    let config = CacheConfig {
        kind: "memory".to_string(),
        max_size: 2,
        expiration: 3600,
    };

    let mut cache: InmemoryCache<String> = InmemoryCache::new(config);

    // Fill cache to capacity
    assert!(cache
        .insert("1".to_string(), r#"{"id": 1, "name": "bulbasaur"}"#.to_string())
        .is_ok());
    assert!(cache
        .insert("2".to_string(), r#"{"id": 2, "name": "ivysaur"}"#.to_string())
        .is_ok());

    // Insert one more (should trigger eviction)
    assert!(cache
        .insert("3".to_string(), r#"{"id": 3, "name": "venusaur"}"#.to_string())
        .is_ok());

    // The first entry should have been evicted
    assert!(cache.get("1").is_none());
    assert!(cache.get("2").is_some());
    assert!(cache.get("3").is_some());
}

#[test]
fn test_invalid_operations() {
    let mut cache: InmemoryCache<String> = InmemoryCache::with_defaults();

    // Test empty key
    assert!(cache.insert("".to_string(), "test".to_string()).is_err());
    assert!(cache.get("").is_none());
}

#[test]
fn test_generic_string_cache() {
    let config = CacheConfig {
        kind: "memory".to_string(),
        max_size: 10,
        expiration: 3600,
    };

    let mut cache: InmemoryCache<String> = InmemoryCache::new(config);

    // Test with String values
    assert!(cache.insert("key1".to_string(), "value1".to_string()).is_ok());

    let retrieved = cache.get("key1");
    assert!(retrieved.is_some());
    assert_eq!(retrieved.unwrap(), "value1");

    // Test cache miss
    assert!(cache.get("nonexistent").is_none());
}

#[test]
fn test_generic_number_cache() {
    let config = CacheConfig {
        kind: "memory".to_string(),
        max_size: 5,
        expiration: 3600,
    };

    let mut cache: InmemoryCache<i32> = InmemoryCache::new(config);

    // Test with i32 values
    assert!(cache.insert("number1".to_string(), 42).is_ok());
    assert!(cache.insert("number2".to_string(), 100).is_ok());

    assert_eq!(cache.get("number1"), Some(42));
    assert_eq!(cache.get("number2"), Some(100));
    assert_eq!(cache.get("nonexistent"), None);
}

fn small_cache(max_size: u32, expiration: u32) -> InmemoryCache<String> {
    InmemoryCache::new(CacheConfig {
        kind: "memory".to_string(),
        max_size,
        expiration,
    })
}

#[test]
fn test_insert_then_get_at() {
    let mut cache = small_cache(10, 3600);
    assert!(cache.insert_at("k".to_string(), "v".to_string(), 1000).is_ok());
    assert_eq!(cache.get_at("k", 1000), Some("v".to_string()));
    // Still live exactly at the time-to-live boundary
    assert_eq!(cache.get_at("k", 1000 + 3600), Some("v".to_string()));
}

#[test]
fn test_capacity_stays_at_max() {
    let mut cache = small_cache(2, 3600);
    assert!(cache.insert_at("a".to_string(), "A".to_string(), 1).is_ok());
    assert!(cache.insert_at("b".to_string(), "B".to_string(), 2).is_ok());
    assert_eq!(cache.size(), 2);
    assert!(cache.insert_at("c".to_string(), "C".to_string(), 3).is_ok());
    // Exactly one prior entry was removed; the count stays at capacity
    assert_eq!(cache.size(), 2);
    let stats = cache.stats().unwrap();
    assert_eq!(stats.inserts, 3);
    assert_eq!(stats.removes, 1);
}

#[test]
fn test_eviction_scenario() {
    let mut cache = small_cache(2, 3600);
    assert!(cache.insert_at("1".to_string(), "A".to_string(), 1).is_ok());
    assert!(cache.insert_at("2".to_string(), "B".to_string(), 2).is_ok());
    assert!(cache.insert_at("3".to_string(), "C".to_string(), 3).is_ok());
    assert_eq!(cache.get_at("1", 3), None);
    assert_eq!(cache.get_at("2", 3), Some("B".to_string()));
    assert_eq!(cache.get_at("3", 3), Some("C".to_string()));
    assert_eq!(cache.size(), 2);
}

#[test]
fn test_eviction_breaks_ties_by_access_count() {
    let mut cache = small_cache(2, 3600);
    assert!(cache.insert_at("a".to_string(), "A".to_string(), 5).is_ok());
    assert!(cache.insert_at("b".to_string(), "B".to_string(), 5).is_ok());
    // Reading "a" bumps its access count; "b" is now the eviction candidate
    assert_eq!(cache.get_at("a", 5), Some("A".to_string()));
    assert!(cache.insert_at("c".to_string(), "C".to_string(), 5).is_ok());
    assert_eq!(cache.get_at("a", 5), Some("A".to_string()));
    assert_eq!(cache.get_at("b", 5), None);
    assert_eq!(cache.get_at("c", 5), Some("C".to_string()));
}

#[test]
fn test_expired_entry_not_served() {
    let mut cache = small_cache(10, 3600);
    assert!(cache.insert_at("k".to_string(), "v".to_string(), 1000).is_ok());
    assert_eq!(cache.size(), 1);
    // One second past the time-to-live: removed on access, counted as a miss
    assert_eq!(cache.get_at("k", 1000 + 3601), None);
    assert_eq!(cache.size(), 0);
    let stats = cache.stats().unwrap();
    assert_eq!(stats.misses, 1);
    assert_eq!(stats.hits, 0);
}

#[test]
fn test_cleanup_removes_only_expired() {
    let mut cache = small_cache(10, 100);
    assert!(cache.insert_at("old".to_string(), "x".to_string(), 0).is_ok());
    assert!(cache.insert_at("new".to_string(), "y".to_string(), 150).is_ok());
    // At time 150 the first entry is 150s old (> 100), the second fresh
    cache.cleanup_expired_entries(150);
    assert_eq!(cache.size(), 1);
    assert!(!cache.contains_key("old"));
    assert!(cache.contains_key("new"));
    let stats = cache.stats().unwrap();
    assert_eq!(stats.cleanups, 1);
    assert_eq!(stats.removes, 1);
}

#[test]
fn test_cleanup_counts_nothing_when_nothing_expires() {
    let mut cache = small_cache(10, 3600);
    assert!(cache.insert_at("k".to_string(), "v".to_string(), 50).is_ok());
    cache.cleanup_expired_entries(60);
    assert_eq!(cache.size(), 1);
    let stats = cache.stats().unwrap();
    assert_eq!(stats.cleanups, 0);
    assert_eq!(stats.removes, 0);

    // A fresh entry stored off the system clock survives a clock-driven pass
    // under a long time-to-live
    let mut live = small_cache(10, 3600);
    assert!(live.insert("k".to_string(), "v".to_string()).is_ok());
    live.cleanup_expired();
    assert_eq!(live.size(), 1);
    assert_eq!(live.stats().unwrap().cleanups, 0);
}

#[test]
fn test_empty_key_mutates_nothing() {
    let mut cache = small_cache(10, 3600);
    let err = cache.insert("".to_string(), "x".to_string()).unwrap_err();
    assert!(matches!(err, CacheError::InvalidKey(_)));
    assert_eq!(err.message(), "Invalid cache key: Key cannot be empty");
    assert_eq!(cache.get(""), None);
    assert_eq!(cache.remove(""), None);
    let stats = cache.stats().unwrap();
    assert_eq!(stats.hits, 0);
    assert_eq!(stats.misses, 0);
    assert_eq!(stats.inserts, 0);
    assert_eq!(stats.removes, 0);
    assert_eq!(stats.cleanups, 0);
    assert_eq!(cache.size(), 0);
}

#[test]
fn test_miss_is_counted() {
    let mut cache = small_cache(10, 3600);
    assert_eq!(cache.get("missing"), None);
    assert_eq!(cache.stats().unwrap().misses, 1);
}

#[test]
fn test_hit_rate() {
    let mut cache = small_cache(10, 3600);
    let (num, den) = cache.hit_rate_parts();
    assert_eq!((num, den), (0, 0));
    // A fresh store reports a rate of 0.0
    let rate = if den == 0 { 0.0 } else { num as f64 / den as f64 };
    assert_eq!(rate, 0.0);

    assert!(cache.insert_at("k".to_string(), "v".to_string(), 1).is_ok());
    assert_eq!(cache.get_at("k", 1), Some("v".to_string()));
    assert_eq!(cache.get_at("absent", 1), None);
    let (num, den) = cache.hit_rate_parts();
    assert_eq!((num, den), (1, 2));
    assert_eq!(num as f64 / den as f64, 0.5);
}

#[test]
fn test_clear_resets_everything() {
    let mut cache = small_cache(10, 3600);
    assert!(cache.insert_at("a".to_string(), "A".to_string(), 1).is_ok());
    assert!(cache.insert_at("b".to_string(), "B".to_string(), 2).is_ok());
    assert_eq!(cache.get_at("a", 2), Some("A".to_string()));
    assert_eq!(cache.get_at("zzz", 2), None);
    cache.clear();
    assert_eq!(cache.size(), 0);
    let (num, den) = cache.hit_rate_parts();
    assert_eq!((num, den), (0, 0));
    let rate = if den == 0 { 0.0 } else { num as f64 / den as f64 };
    assert_eq!(rate, 0.0);
    let stats = cache.stats().unwrap();
    assert_eq!(stats.hits, 0);
    assert_eq!(stats.misses, 0);
    assert_eq!(stats.inserts, 0);
    assert_eq!(stats.removes, 0);
    assert_eq!(stats.cleanups, 0);
}

#[test]
fn test_remove_returns_value() {
    let mut cache = small_cache(10, 3600);
    assert!(cache.insert_at("k".to_string(), "v".to_string(), 1).is_ok());
    assert_eq!(cache.remove("k"), Some("v".to_string()));
    assert_eq!(cache.size(), 0);
    assert_eq!(cache.stats().unwrap().removes, 1);
    // Removing an absent key does nothing
    assert_eq!(cache.remove("k"), None);
    assert_eq!(cache.stats().unwrap().removes, 1);
}

#[test]
fn test_overwrite_keeps_single_entry() {
    let mut cache = small_cache(10, 3600);
    assert!(cache.insert_at("k".to_string(), "one".to_string(), 1).is_ok());
    assert!(cache.insert_at("k".to_string(), "two".to_string(), 2).is_ok());
    assert_eq!(cache.size(), 1);
    assert_eq!(cache.get_at("k", 2), Some("two".to_string()));
    let stats = cache.stats().unwrap();
    assert_eq!(stats.inserts, 2);
    assert_eq!(stats.removes, 0);
}

#[test]
fn test_overwrite_resets_entry_age() {
    let mut cache = small_cache(10, 100);
    assert!(cache.insert_at("k".to_string(), "one".to_string(), 0).is_ok());
    // Overwriting resets the creation time, so the entry survives past the
    // original deadline
    assert!(cache.insert_at("k".to_string(), "two".to_string(), 90).is_ok());
    assert_eq!(cache.get_at("k", 150), Some("two".to_string()));
}

#[test]
fn test_keys_and_contains() {
    let mut cache = small_cache(10, 3600);
    assert!(cache.insert_at("a".to_string(), "A".to_string(), 1).is_ok());
    assert!(cache.insert_at("b".to_string(), "B".to_string(), 2).is_ok());
    assert!(cache.contains_key("a"));
    assert!(cache.contains_key("b"));
    assert!(!cache.contains_key("c"));
    let mut keys = cache.keys();
    keys.sort();
    assert_eq!(keys, vec!["a".to_string(), "b".to_string()]);
}

#[test]
fn test_defaults_and_enabled() {
    let cache: InmemoryCache<String> = InmemoryCache::with_defaults();
    assert!(cache.is_enabled());
    let config = cache.config();
    assert_eq!(config.kind, "memory");
    assert_eq!(config.max_size, 1000);
    assert_eq!(config.expiration, 3600);

    let other: InmemoryCache<String> = InmemoryCache::new(CacheConfig {
        kind: "disk".to_string(),
        max_size: 1,
        expiration: 1,
    });
    assert!(!other.is_enabled());
}

#[test]
fn test_error_messages() {
    assert_eq!(
        CacheError::LockError("poisoned".to_string()).message(),
        "Cache lock error: poisoned"
    );
    assert_eq!(
        CacheError::MaxSizeExceeded.message(),
        "Cache maximum size exceeded"
    );
    assert_eq!(
        CacheError::InvalidKey("bad".to_string()).message(),
        "Invalid cache key: bad"
    );
}
