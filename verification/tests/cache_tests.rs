use thumbor::SourceCache;
use thumbor::hash_key;

#[test]
fn hash_is_stable() {
    let data = vec![b'h', b'e', b'l', b'l', b'o'];
    assert_eq!(hash_key(&data), 0xa430d84680aabd0b);
    assert_eq!(hash_key(&data), hash_key(&data));
    let empty: Vec<u8> = vec![];
    assert_eq!(hash_key(&empty), 0xcbf29ce484222325);
}

#[test]
fn cache_hit_returns_stored_bytes() {
    let mut cache = SourceCache::new(4);
    cache.put(1, vec![10, 20]);
    cache.put(2, vec![30]);
    assert_eq!(cache.get(1), Some(vec![10, 20]));
    assert_eq!(cache.get(2), Some(vec![30]));
    assert_eq!(cache.get(3), None);
    assert_eq!(cache.len(), 2);
}

#[test]
fn cache_hit_avoids_fetch() {
    // A caller fetches only when `get` misses: for a key already
    // present the collaborator is never invoked.
    let mut cache = SourceCache::new(4);
    cache.put(7, vec![1, 2, 3]);
    let mut fetches: u32 = 0;
    let bytes = match cache.get(7) {
        Some(v) => v,
        None => {
            fetches += 1;
            let fetched = vec![9, 9, 9];
            cache.put(7, fetched.clone());
            fetched
        }
    };
    assert_eq!(fetches, 0);
    assert_eq!(bytes, vec![1, 2, 3]);
}

#[test]
fn eviction_removes_least_recently_accessed() {
    // Capacity+1 distinct keys: exactly the least recently accessed
    // one is gone afterwards.
    let mut cache = SourceCache::new(3);
    cache.put(1, vec![1]);
    cache.put(2, vec![2]);
    cache.put(3, vec![3]);
    cache.put(4, vec![4]);
    assert!(!cache.contains(1));
    assert!(cache.contains(2));
    assert!(cache.contains(3));
    assert!(cache.contains(4));
    assert_eq!(cache.len(), 3);
}

#[test]
fn recency_is_reset_by_get() {
    let mut cache = SourceCache::new(2);
    cache.put(1, vec![1]);
    cache.put(2, vec![2]);
    // Touch key 1, making key 2 the least recently used.
    assert_eq!(cache.get(1), Some(vec![1]));
    cache.put(3, vec![3]);
    assert!(cache.contains(1));
    assert!(!cache.contains(2));
    assert!(cache.contains(3));
}

#[test]
fn reinserting_a_key_replaces_its_bytes() {
    let mut cache = SourceCache::new(2);
    cache.put(5, vec![1]);
    cache.put(6, vec![2]);
    cache.put(5, vec![42]);
    assert_eq!(cache.get(5), Some(vec![42]));
    assert_eq!(cache.len(), 2);
    assert!(cache.contains(6));
}
