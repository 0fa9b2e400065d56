use sti_codec::cache::{DirectoryCache, StiCache};
use sti_codec::types::StiFile;

#[test]
fn test_cache_lookup_hit_and_miss() {
    let mut cache = StiCache::new(50);
    assert!(cache.lookup(&"a.sti".to_string()).is_none());
    cache.insert("a.sti".to_string(), StiFile::new());
    let hit = cache.lookup(&"a.sti".to_string());
    assert!(hit.is_some());
    assert!(cache.lookup(&"b.sti".to_string()).is_none());
}

#[test]
fn test_cache_clear_all_eviction() {
    // After inserting 51 distinct keys with capacity 50, only the latest
    // entry survives the clear-all eviction.
    let mut cache = StiCache::new(50);
    for i in 0..51u32 {
        cache.insert(format!("file{}.sti", i), StiFile::new());
    }
    assert_eq!(cache.len(), 1);
    assert!(cache.lookup(&"file50.sti".to_string()).is_some());
    assert!(cache.lookup(&"file0.sti".to_string()).is_none());
}

#[test]
fn test_cache_invalidate() {
    let mut cache = StiCache::new(50);
    cache.insert("a.sti".to_string(), StiFile::new());
    cache.insert("b.sti".to_string(), StiFile::new());
    cache.invalidate(&"a.sti".to_string());
    // The invalidated key misses, so the caller re-parses from disk; the
    // other entry is untouched.
    assert!(cache.lookup(&"a.sti".to_string()).is_none());
    assert!(cache.lookup(&"b.sti".to_string()).is_some());
    assert_eq!(cache.len(), 1);
}

#[test]
fn test_cache_replace_keeps_len() {
    let mut cache = StiCache::new(50);
    cache.insert("a.sti".to_string(), StiFile::new());
    let mut replacement = StiFile::new();
    replacement.header.num_images = 9;
    cache.insert("a.sti".to_string(), replacement);
    assert_eq!(cache.len(), 1);
    let hit = cache.lookup(&"a.sti".to_string()).unwrap();
    assert_eq!(hit.header.num_images, 9);
}

#[test]
fn test_cache_clear() {
    let mut cache = StiCache::new(50);
    cache.insert("a.sti".to_string(), StiFile::new());
    cache.clear();
    assert_eq!(cache.len(), 0);
}

#[test]
fn test_directory_cache_eviction() {
    let mut cache = DirectoryCache::new(2);
    cache.insert("one".to_string(), true);
    cache.insert("two".to_string(), false);
    assert_eq!(cache.lookup(&"one".to_string()), Some(true));
    assert_eq!(cache.lookup(&"two".to_string()), Some(false));
    // A third distinct key exceeds the capacity: everything is cleared
    // before it goes in.
    cache.insert("three".to_string(), true);
    assert_eq!(cache.len(), 1);
    assert_eq!(cache.lookup(&"three".to_string()), Some(true));
    assert!(cache.lookup(&"one".to_string()).is_none());
}
