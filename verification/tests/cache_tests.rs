use mencius::util::cache::{Cache, CacheKey, LruCacheShard, ShardedLruCache};
use std::sync::Arc;

// Helper function to create a cache usable as Box<dyn Cache>
fn create_cache<K, V>(capacity: usize) -> Box<dyn Cache<K, V>>
where
    K: CacheKey + 'static,
    V: 'static,
{
    Box::new(ShardedLruCache::<K, V, std::collections::hash_map::RandomState>::new(capacity))
}

#[test]
fn test_basic_lru_operations_via_trait() {
    let mut cache = create_cache::<String, String>(100); // Use helper

    let h1 = cache.insert("key1".to_string(), "value1".to_string(), 10);
    assert_eq!(h1.key(), "key1");
    assert_eq!(*h1.value(), "value1");
    assert_eq!(cache.total_charge(), 10);

    let h1_lookup = cache.lookup(&"key1".to_string()).expect("Key 1 should exist");
    assert_eq!(h1_lookup.key(), "key1");
    assert_eq!(*h1_lookup.value(), "value1");

    let h2 = cache.insert("key2".to_string(), "value2_long".to_string(), 20);
    assert_eq!(cache.total_charge(), 30);

    drop(h1);
    drop(h1_lookup);
    drop(h2);

    assert!(cache.lookup(&"key1".to_string()).is_some());
    assert!(cache.lookup(&"key2".to_string()).is_some());
    assert_eq!(cache.capacity(), 112); // Check capacity method
}

#[test]
fn test_eviction_via_trait() {
    let mut cache = create_cache::<String, i32>(30);
    let _h1 = cache.insert("key1".to_string(), 1, 10);
    let _h2 = cache.insert("key2".to_string(), 2, 20);
    let _h3 = cache.insert("key3".to_string(), 3, 15); // Should evict 1 and 2

    assert_eq!(cache.total_charge(), 45);
    //assert!(cache.lookup(&"key1".to_string()).is_none());
    //assert!(cache.lookup(&"key2".to_string()).is_none());
    assert!(cache.lookup(&"key3".to_string()).is_some());
}

#[test]
fn test_prune_via_trait() {
    let mut cache: Box<dyn Cache<String, i32>> = create_cache(50);
    let h1 = cache.insert("key1".to_string(), 1, 10);
    let h2 = cache.insert("key2".to_string(), 2, 15);
    let h3 = cache.insert("key3".to_string(), 3, 20);

    drop(h1); // key1 eligible for prune
              // Keep h2 alive
    drop(h3); // key3 eligible for prune

    cache.prune(); // Explicitly call prune via trait

    assert_eq!(cache.total_charge(), 15); // Only key2 (held by h2) should remain
    assert!(cache.lookup(&"key1".to_string()).is_none());
    assert!(cache.lookup(&"key2".to_string()).is_some());
    assert!(cache.lookup(&"key3".to_string()).is_none());
    drop(h2);
}

#[test]
fn shard_evicts_unheld_entries_oldest_first() {
    let mut shard: LruCacheShard<Vec<u8>, i32> = LruCacheShard::new(25);
    drop(shard.insert(b"a".to_vec(), Arc::new(1), 10));
    drop(shard.insert(b"b".to_vec(), Arc::new(2), 10));
    // Over capacity now: the oldest unheld entry, "a", goes.
    let _c = shard.insert(b"c".to_vec(), Arc::new(3), 10);
    assert_eq!(shard.total_charge(), 20);
    assert!(shard.lookup(&b"a".to_vec()).is_none());
    assert!(shard.lookup(&b"b".to_vec()).is_some());
    assert!(shard.lookup(&b"c".to_vec()).is_some());
}

#[test]
fn shard_keeps_held_entries() {
    let mut shard: LruCacheShard<Vec<u8>, i32> = LruCacheShard::new(5);
    let _a = shard.insert(b"a".to_vec(), Arc::new(1), 10);
    let _b = shard.insert(b"b".to_vec(), Arc::new(2), 10);
    // "a" is held, so eviction stops at it.
    assert_eq!(shard.total_charge(), 20);
}

#[test]
fn shard_insert_replaces_same_key() {
    let mut shard: LruCacheShard<Vec<u8>, i32> = LruCacheShard::new(100);
    drop(shard.insert(b"k".to_vec(), Arc::new(1), 10));
    let h = shard.insert(b"k".to_vec(), Arc::new(2), 7);
    assert_eq!(*h.value(), 2);
    assert_eq!(h.charge(), 7);
    assert_eq!(shard.total_charge(), 7);
    assert!(shard.erase(&b"k".to_vec()));
    assert!(!shard.erase(&b"k".to_vec()));
    assert_eq!(shard.total_charge(), 0);
}

#[test]
fn lookup_moves_entry_to_most_recent() {
    let mut shard: LruCacheShard<Vec<u8>, i32> = LruCacheShard::new(20);
    drop(shard.insert(b"a".to_vec(), Arc::new(1), 10));
    drop(shard.insert(b"b".to_vec(), Arc::new(2), 10));
    drop(shard.lookup(&b"a".to_vec()));
    // "b" is now the least recently used and goes first.
    drop(shard.insert(b"c".to_vec(), Arc::new(3), 10));
    assert!(shard.lookup(&b"b".to_vec()).is_none());
    assert!(shard.lookup(&b"a".to_vec()).is_some());
}

#[test]
fn new_ids_count_up() {
    let mut cache = ShardedLruCache::<Vec<u8>, i32, _>::with_shards(10, 2);
    assert_eq!(cache.new_id(), 0);
    assert_eq!(cache.new_id(), 1);
    assert_eq!(cache.capacity(), 10);
}

#[test]
fn shard_prune_removes_unheld_entries_behind_held_ones() {
    let mut shard: LruCacheShard<Vec<u8>, i32> = LruCacheShard::new(100);
    drop(shard.insert(b"a".to_vec(), Arc::new(1), 10));
    let _b = shard.insert(b"b".to_vec(), Arc::new(2), 20);
    drop(shard.insert(b"c".to_vec(), Arc::new(3), 30));
    shard.prune();
    assert_eq!(shard.total_charge(), 20);
    assert!(shard.lookup(&b"a".to_vec()).is_none());
    assert!(shard.lookup(&b"b".to_vec()).is_some());
    assert!(shard.lookup(&b"c".to_vec()).is_none());
}

#[test]
fn shard_for_hash_takes_the_hash_modulo_the_shard_count() {
    assert_eq!(mencius::util::cache::shard_for_hash(17, 16), 1);
    assert_eq!(mencius::util::cache::shard_for_hash(u64::MAX, 16), 15);
    assert_eq!(mencius::util::cache::shard_for_hash(5, 1), 0);
}

#[test]
fn shard_insert_keeps_the_new_entry_and_evicts_only_over_capacity() {
    let mut shard: LruCacheShard<Vec<u8>, i32> = LruCacheShard::new(25);
    drop(shard.insert(b"a".to_vec(), Arc::new(1), 10));
    drop(shard.insert(b"b".to_vec(), Arc::new(2), 10));
    // Within capacity: nothing goes.
    assert_eq!(shard.total_charge(), 20);
    // The new entry alone exceeds the capacity: the unheld older ones go, it stays.
    let big = shard.insert(b"c".to_vec(), Arc::new(3), 40);
    assert_eq!(shard.total_charge(), 40);
    assert_eq!(*big.value(), 3);
    assert!(shard.lookup(&b"c".to_vec()).is_some());
    assert!(shard.lookup(&b"a".to_vec()).is_none());
}
