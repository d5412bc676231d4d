use aspen::cache::{blake3_hex, resolve_blake3, to_hex_lower, CacheEntry, HashCache};
use std::cell::Cell;

#[test]
fn blake3_stable() {
    let a = blake3_hex(b"hello aspen");
    let b = blake3_hex(b"hello aspen");
    assert_eq!(a, b);
    assert_eq!(a, blake3::hash(b"hello aspen").to_hex().to_string());
}

#[test]
fn blake3_of_empty_input_is_the_published_vector() {
    assert_eq!(blake3_hex(b""), "af1349b9f5f9a1a6a0404dea36dcc9499bcb25c9adc112b7cc9a93cae41f3262");
}

#[test]
fn blake3_differs_from_its_input() {
    let h = blake3_hex(b"abc");
    assert_eq!(h.len(), 64);
    assert_ne!(h, to_hex_lower(b"abc"));
}

#[test]
fn hex_is_lower_case_and_padded() {
    assert_eq!(to_hex_lower(&[0x00, 0x0f, 0xab, 0xff]), "000fabff");
    assert_eq!(to_hex_lower(&[]), "");
}

#[test]
fn cache_hit_and_miss_on_change() {
    let mut cache = HashCache::new();
    let reads = Cell::new(0);
    let h1 = resolve_blake3(&mut cache, "/f.jpg", || Ok((2, Some(100))), || {
        reads.set(reads.get() + 1);
        Ok(b"v1".to_vec())
    })
    .unwrap();
    let h2 = resolve_blake3(&mut cache, "/f.jpg", || Ok((2, Some(100))), || {
        reads.set(reads.get() + 1);
        Ok(b"v1".to_vec())
    })
    .unwrap();
    assert_eq!(h1, h2);
    assert_eq!(reads.get(), 1);
    // Different size forces a cache miss even if the mtime is the same.
    let h3 = resolve_blake3(&mut cache, "/f.jpg", || Ok((17, Some(100))), || {
        reads.set(reads.get() + 1);
        Ok(b"v2-longer-content".to_vec())
    })
    .unwrap();
    assert_ne!(h1, h3);
    assert_eq!(reads.get(), 2);
}

#[test]
fn unknown_mtime_never_hits() {
    let mut cache = HashCache::new();
    let reads = Cell::new(0);
    for _ in 0..2 {
        resolve_blake3(&mut cache, "/g.jpg", || Ok((5, None)), || {
            reads.set(reads.get() + 1);
            Ok(b"bytes".to_vec())
        })
        .unwrap();
    }
    assert_eq!(reads.get(), 2);
    assert_eq!(cache.get_valid("/g.jpg", 5, Some(0)).map(|e| e.size), Some(5));
}

#[test]
fn failures_leave_the_cache_unchanged() {
    let mut cache = HashCache::new();
    assert_eq!(resolve_blake3(&mut cache, "/h", || Err("gone".to_string()), || Ok(vec![])), Err("gone".to_string()));
    assert_eq!(resolve_blake3(&mut cache, "/h", || Ok((1, Some(1))), || Err("denied".to_string())), Err("denied".to_string()));
    assert!(cache.entries().is_empty());
}

fn entry(size: u64, mtime: u64, hash: &str) -> CacheEntry {
    CacheEntry { size, mtime_secs: mtime, blake3: hash.to_string(), phash: Some(7), preview_w: Some(1), preview_h: Some(2) }
}

#[test]
fn insert_replaces_and_lookup_checks_size_and_mtime() {
    let mut cache = HashCache::new();
    cache.insert("/a", entry(1, 10, "h1"));
    cache.insert("/b", entry(2, 20, "h2"));
    cache.insert("/a", entry(3, 30, "h3"));
    assert_eq!(cache.entries().len(), 2);
    assert_eq!(cache.get_valid("/a", 3, Some(30)).map(|e| e.blake3.clone()), Some("h3".to_string()));
    assert!(cache.get_valid("/a", 1, Some(10)).is_none());
    assert!(cache.get_valid("/a", 3, Some(31)).is_none());
    assert!(cache.get_valid("/a", 3, None).is_none());
    assert!(cache.get_valid("/c", 3, Some(30)).is_none());
}

#[test]
fn from_entries_keeps_the_last_duplicate() {
    let cache = HashCache::from_entries(vec![
        ("/a".to_string(), entry(1, 1, "old")),
        ("/a".to_string(), entry(1, 1, "new")),
    ]);
    assert_eq!(cache.entries().len(), 1);
    assert_eq!(cache.get_valid("/a", 1, Some(1)).unwrap().blake3, "new");
}
