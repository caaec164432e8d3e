use turbocrab::cache::TurboCache;
use turbocrab::entry::{CachedResponse, CachedResponseBuilder};
use turbocrab::orchestrator::{step, FetchEvent, FetchState, ProxyAction};
use turbocrab::router::{route, RouteDecision};

fn plain_headers() -> Vec<(Vec<u8>, Vec<u8>)> {
    vec![(b"Content-Type".to_vec(), b"text/plain".to_vec())]
}

/// Drives one request for `url` against an origin that answers 200 with the
/// given chunks, committing the capture afterwards.  Returns the entry that
/// was served to the client.
fn run_fresh_fetch(cache: &mut TurboCache, url: &[u8], chunks: &[&[u8]]) -> CachedResponse {
    assert!(cache.get(&url.to_vec()).is_none());
    let mut state = FetchState::Start { url: url.to_vec() };
    let mut action;
    (state, action) = step(state, FetchEvent::CacheLookup(None));
    assert_eq!(action, ProxyAction::IssueFetch);
    (state, action) = step(
        state,
        FetchEvent::OriginHeaders { status: 200, headers: plain_headers() },
    );
    assert_eq!(action, ProxyAction::StartResponse);
    for chunk in chunks {
        (state, action) = step(state, FetchEvent::BodyChunk(chunk.to_vec()));
        assert_eq!(action, ProxyAction::ForwardChunk);
    }
    (state, action) = step(state, FetchEvent::BodyEnd);
    assert_eq!(action, ProxyAction::EnqueueEntry);
    let entry = match state {
        FetchState::Completed { entry } => entry,
        _ => panic!("a drained fetch must complete"),
    };
    cache.append_async(entry.duplicate());
    assert!(cache.commit_next());
    entry
}

#[test]
fn scenario_first_fetch_then_cache_hit() {
    let query = b"url=http://example.test/a".to_vec();
    let url = match route(Some(&query)) {
        RouteDecision::Fetch(u) => u,
        RouteDecision::Reject => panic!("a well-formed query must route"),
    };
    let mut cache = TurboCache::new();
    let served = run_fresh_fetch(&mut cache, &url, &[b"hello"]);
    assert_eq!(served.status(), 200);
    assert_eq!(served.body(), &b"hello".to_vec());

    // The identical second request hits the cache; the origin is not called.
    let found = cache.get(&url).expect("the committed entry must be visible");
    assert_eq!(found, served);
    let (state, action) = step(
        FetchState::Start { url: url.clone() },
        FetchEvent::CacheLookup(Some(found)),
    );
    assert_eq!(action, ProxyAction::ServeCached);
    let hit = match state {
        FetchState::ServingCached { entry } => entry,
        _ => panic!("a hit must serve the stored entry"),
    };
    let parts = hit.into_response();
    assert_eq!(parts.status, 200);
    assert_eq!(parts.body, b"hello".to_vec());
    assert!(parts
        .headers
        .contains(&(b"content-length".to_vec(), b"5".to_vec())));
}

#[test]
fn scenario_malformed_target_is_rejected() {
    let query = b"url=not-a-url".to_vec();
    assert_eq!(route(Some(&query)), RouteDecision::Reject);
    // Nothing reached the cache.
    let cache = TurboCache::new();
    assert!(cache.get(&b"not-a-url".to_vec()).is_none());
}

#[test]
fn scenario_origin_error_is_never_cached() {
    let url = b"http://example.test/down".to_vec();
    let mut cache = TurboCache::new();
    let mut state = FetchState::Start { url: url.clone() };
    let mut action;
    (state, action) = step(state, FetchEvent::CacheLookup(None));
    assert_eq!(action, ProxyAction::IssueFetch);
    // The origin answers 503: the response is relayed, never captured.
    (state, action) = step(
        state,
        FetchEvent::OriginHeaders { status: 503, headers: plain_headers() },
    );
    assert_eq!(action, ProxyAction::StartResponse);
    assert!(matches!(state, FetchState::Relaying));
    (state, action) = step(state, FetchEvent::BodyChunk(b"unavailable".to_vec()));
    assert_eq!(action, ProxyAction::ForwardChunk);
    (state, action) = step(state, FetchEvent::BodyEnd);
    assert_eq!(action, ProxyAction::Stop);
    assert!(matches!(state, FetchState::Done));
    assert!(cache.get(&url).is_none());
    assert!(!cache.commit_next());
}

#[test]
fn scenario_transport_failure_is_answered_with_an_error() {
    let url = b"http://example.test/gone".to_vec();
    let mut state = FetchState::Start { url: url.clone() };
    let mut action;
    (state, action) = step(state, FetchEvent::CacheLookup(None));
    assert_eq!(action, ProxyAction::IssueFetch);
    (state, action) = step(state, FetchEvent::FetchFailed);
    assert_eq!(action, ProxyAction::RespondError);
    assert!(matches!(state, FetchState::Failed));
}

#[test]
fn scenario_two_concurrent_first_requests() {
    let url = b"http://example.test/a".to_vec();
    let mut cache = TurboCache::new();
    // Both requests look up before either commit: both miss and both fetch.
    let mut s1 = FetchState::Start { url: url.clone() };
    let mut s2 = FetchState::Start { url: url.clone() };
    assert!(cache.get(&url).is_none());
    (s1, _) = step(s1, FetchEvent::CacheLookup(None));
    assert!(cache.get(&url).is_none());
    (s2, _) = step(s2, FetchEvent::CacheLookup(None));
    (s1, _) = step(s1, FetchEvent::OriginHeaders { status: 200, headers: plain_headers() });
    (s2, _) = step(s2, FetchEvent::OriginHeaders { status: 200, headers: plain_headers() });
    (s1, _) = step(s1, FetchEvent::BodyChunk(b"hello".to_vec()));
    (s2, _) = step(s2, FetchEvent::BodyChunk(b"hello".to_vec()));
    let (s1, a1) = step(s1, FetchEvent::BodyEnd);
    let (s2, a2) = step(s2, FetchEvent::BodyEnd);
    assert_eq!(a1, ProxyAction::EnqueueEntry);
    assert_eq!(a2, ProxyAction::EnqueueEntry);
    let e1 = match s1 {
        FetchState::Completed { entry } => entry,
        _ => panic!("the first request must complete"),
    };
    let e2 = match s2 {
        FetchState::Completed { entry } => entry,
        _ => panic!("the second request must complete"),
    };
    // Each response is independently complete and identical.
    assert_eq!(e1, e2);
    assert_eq!(e1.body(), &b"hello".to_vec());
    // Both captures are enqueued — no deduplication — and committed in order.
    cache.append_async(e1.duplicate());
    cache.append_async(e2.duplicate());
    assert_eq!(cache.pending(), 2);
    assert!(cache.commit_next());
    assert!(cache.commit_next());
    // The final state for the key is one of the fetched results, whole.
    let served = cache.get(&url).unwrap();
    assert!(served == e1 || served == e2);
}

#[test]
fn client_disconnect_aborts_without_caching() {
    let url = b"http://example.test/slow".to_vec();
    let mut cache = TurboCache::new();
    let mut state = FetchState::Start { url: url.clone() };
    (state, _) = step(state, FetchEvent::CacheLookup(None));
    (state, _) = step(state, FetchEvent::OriginHeaders { status: 200, headers: plain_headers() });
    (state, _) = step(state, FetchEvent::BodyChunk(b"hel".to_vec()));
    // The client goes away mid-stream: the capture is dropped.
    let (state, action) = step(state, FetchEvent::ClientGone);
    assert_eq!(action, ProxyAction::Stop);
    assert!(matches!(state, FetchState::Aborted));
    // Even a late end-of-body observation changes nothing.
    let (state, action) = step(state, FetchEvent::BodyEnd);
    assert_eq!(action, ProxyAction::Stop);
    assert!(matches!(state, FetchState::Aborted));
    assert!(cache.get(&url).is_none());
    assert!(!cache.commit_next());
}

#[test]
fn serving_recomputes_content_length() {
    // The stored entry carries a stale Content-Length; serving replaces it
    // with the byte count actually streamed.
    let entry = CachedResponseBuilder::new(b"http://example.test/cl".to_vec(), 200)
        .with_headers(vec![
            (b"Content-Length".to_vec(), b"999".to_vec()),
            (b"X-Other".to_vec(), b"kept".to_vec()),
        ])
        .with_body(b"hello".to_vec())
        .build();
    let parts = entry.into_response();
    let cl: Vec<&(Vec<u8>, Vec<u8>)> = parts
        .headers
        .iter()
        .filter(|(name, _)| name.eq_ignore_ascii_case(b"content-length"))
        .collect();
    assert_eq!(cl.len(), 1);
    assert_eq!(cl[0].1, b"5".to_vec());
    assert!(parts.headers.contains(&(b"X-Other".to_vec(), b"kept".to_vec())));
}

#[test]
fn content_length_renders_multi_digit_counts() {
    let entry = CachedResponseBuilder::new(b"http://example.test/long".to_vec(), 200)
        .with_body(b"twelve bytes".to_vec())
        .build();
    let parts = entry.into_response();
    assert!(parts
        .headers
        .contains(&(b"content-length".to_vec(), b"12".to_vec())));
}
