use wafflematrix::cache::{CacheKey, PageCache};

fn key(page: u16, zoom: i32) -> CacheKey {
    CacheKey { page_index: page, zoom_centile: zoom }
}

#[test]
fn get_after_put_returns_the_image() {
    let mut c = PageCache::new();
    c.put(key(1, 100), "png-1".to_string());
    assert_eq!(c.get(key(1, 100)), Some("png-1".to_string()));
    assert_eq!(c.get(key(1, 150)), None);
    assert!(c.contains(key(1, 100)));
}

#[test]
fn put_replaces_the_image_of_a_key() {
    let mut c = PageCache::default();
    c.put(key(2, 100), "old".to_string());
    c.put(key(2, 100), "new".to_string());
    assert_eq!(c.get(key(2, 100)), Some("new".to_string()));
}

#[test]
fn invalidate_all_empties_the_cache() {
    let mut c = PageCache::new();
    c.put(key(0, 100), "a".to_string());
    c.put(key(1, 100), "b".to_string());
    c.invalidate_all();
    assert!(!c.contains(key(0, 100)));
    assert_eq!(c.get(key(1, 100)), None);
}

#[test]
fn least_recently_used_entry_leaves_first() {
    let mut c = PageCache::new();
    for p in 0..50u16 {
        c.put(key(p, 100), format!("img{p}"));
    }
    // touch page 0 so page 1 becomes the least recently used
    assert!(c.get(key(0, 100)).is_some());
    c.put(key(50, 100), "img50".to_string());
    assert!(c.contains(key(0, 100)));
    assert!(!c.contains(key(1, 100)));
    assert!(c.contains(key(50, 100)));
    assert_eq!(c.get(key(2, 100)), Some("img2".to_string()));
    assert_eq!(c.get(key(49, 100)), Some("img49".to_string()));
}

#[test]
fn contains_does_not_promote() {
    let mut c = PageCache::new();
    for p in 0..50u16 {
        c.put(key(p, 100), format!("img{p}"));
    }
    assert!(c.contains(key(0, 100)));
    c.put(key(50, 100), "img50".to_string());
    assert!(!c.contains(key(0, 100)));
}
