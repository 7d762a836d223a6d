use phonia::lru::{BlockKey, LruCache, CACHE_CAPACITY, DECODED_CHUNK_CACHE_CAP};

fn key(block_index: usize) -> BlockKey {
    BlockKey {
        audio: 0,
        params_hash: 0,
        block_index,
    }
}

fn block(cols: usize) -> Vec<f32> {
    vec![0.0; cols]
}

#[test]
fn evicts_least_recently_used_at_capacity() {
    let mut cache = LruCache::new(CACHE_CAPACITY);
    for i in 0..CACHE_CAPACITY {
        cache.insert(key(i), block(1));
    }
    // Touch block 0 so it is no longer the oldest.
    assert!(cache.get(key(0)).is_some());
    // Insert one more: block 1 (now the oldest) is evicted, block 0 stays.
    cache.insert(key(CACHE_CAPACITY), block(1));
    assert_eq!(cache.len(), CACHE_CAPACITY);
    assert!(cache.get(key(0)).is_some());
    assert!(cache.get(key(1)).is_none());
}

#[test]
fn decoded_chunk_cache_stays_bounded_under_a_full_sweep() {
    let mut cache = LruCache::new(DECODED_CHUNK_CACHE_CAP);
    for chunk in 0..(DECODED_CHUNK_CACHE_CAP + 8) {
        if cache.get(key(chunk)).is_none() {
            cache.insert(key(chunk), chunk);
        }
        assert!(cache.len() <= DECODED_CHUNK_CACHE_CAP);
    }
    assert_eq!(cache.len(), DECODED_CHUNK_CACHE_CAP);
    assert!(cache.get(key(0)).is_none());
    assert_eq!(cache.get(key(DECODED_CHUNK_CACHE_CAP + 7)), Some(&(DECODED_CHUNK_CACHE_CAP + 7)));
}

#[test]
fn reinserting_a_key_replaces_its_value_without_evicting() {
    let mut cache = LruCache::new(2);
    cache.insert(key(1), "a");
    cache.insert(key(2), "b");
    cache.insert(key(1), "c");
    assert_eq!(cache.len(), 2);
    assert_eq!(cache.get(key(1)), Some(&"c"));
    assert_eq!(cache.get(key(2)), Some(&"b"));
}

#[test]
fn keys_differ_by_every_field() {
    let mut cache = LruCache::new(4);
    cache.insert(BlockKey { audio: 1, params_hash: 2, block_index: 3 }, 1);
    assert!(cache.get(BlockKey { audio: 9, params_hash: 2, block_index: 3 }).is_none());
    assert!(cache.get(BlockKey { audio: 1, params_hash: 9, block_index: 3 }).is_none());
    assert!(cache.get(BlockKey { audio: 1, params_hash: 2, block_index: 9 }).is_none());
    assert_eq!(cache.get(BlockKey { audio: 1, params_hash: 2, block_index: 3 }), Some(&1));
}
