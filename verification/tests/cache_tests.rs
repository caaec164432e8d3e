use turbocrab::cache::TurboCache;
use turbocrab::entry::{CachedResponse, CachedResponseBuilder};

fn entry(url: &[u8], body: &[u8]) -> CachedResponse {
    CachedResponseBuilder::new(url.to_vec(), 200).with_body(body.to_vec()).build()
}

#[test]
fn empty_cache_misses() {
    let cache = TurboCache::new();
    assert!(cache.get(&b"http://example.test/a".to_vec()).is_none());
}

#[test]
fn pending_write_is_invisible_to_readers() {
    let mut cache = TurboCache::new();
    let url = b"http://example.test/a".to_vec();
    cache.append_async(entry(&url, b"hello"));
    assert_eq!(cache.pending(), 1);
    assert!(cache.get(&url).is_none());
}

#[test]
fn committed_write_is_visible() {
    let mut cache = TurboCache::new();
    let url = b"http://example.test/a".to_vec();
    let e = entry(&url, b"hello");
    cache.append_async(e.duplicate());
    assert!(cache.commit_next());
    assert_eq!(cache.pending(), 0);
    assert_eq!(cache.get(&url), Some(e));
}

#[test]
fn commit_on_empty_queue_does_nothing() {
    let mut cache = TurboCache::new();
    assert!(!cache.commit_next());
}

#[test]
fn commits_happen_in_enqueue_order() {
    let mut cache = TurboCache::new();
    let url_a = b"http://example.test/a".to_vec();
    let url_b = b"http://example.test/b".to_vec();
    cache.append_async(entry(&url_a, b"first"));
    cache.append_async(entry(&url_b, b"second"));
    assert!(cache.commit_next());
    assert!(cache.get(&url_a).is_some());
    assert!(cache.get(&url_b).is_none());
    assert!(cache.commit_next());
    assert!(cache.get(&url_b).is_some());
}

#[test]
fn same_key_committed_twice_serves_the_later_record() {
    let mut cache = TurboCache::new();
    let url = b"http://example.test/a".to_vec();
    cache.append_async(entry(&url, b"old"));
    cache.append_async(entry(&url, b"new"));
    assert!(cache.commit_next());
    assert!(cache.commit_next());
    let served = cache.get(&url).unwrap();
    assert_eq!(served.body(), &b"new".to_vec());
}

#[test]
fn lookup_is_per_key() {
    let mut cache = TurboCache::new();
    let url_a = b"http://example.test/a".to_vec();
    let url_b = b"http://example.test/b".to_vec();
    cache.append_async(entry(&url_a, b"alpha"));
    assert!(cache.commit_next());
    assert!(cache.get(&url_b).is_none());
    assert_eq!(cache.get(&url_a).unwrap().body(), &b"alpha".to_vec());
}
