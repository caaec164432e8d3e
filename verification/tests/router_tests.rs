use turbocrab::router::{find_url_param, pct_decode, route, url_is_fetchable, RouteDecision};

#[test]
fn percent_decoding() {
    assert_eq!(
        pct_decode(&b"http%3A%2F%2Fexample.test%2Fa".to_vec()),
        b"http://example.test/a".to_vec()
    );
    assert_eq!(pct_decode(&b"a+b".to_vec()), b"a b".to_vec());
    // An invalid escape stays literal.
    assert_eq!(pct_decode(&b"x%2".to_vec()), b"x%2".to_vec());
    assert_eq!(pct_decode(&b"x%zz".to_vec()), b"x%zz".to_vec());
}

#[test]
fn finds_encoded_url_parameter() {
    let q = b"url=http%3A%2F%2Fexample.test%2Fa".to_vec();
    assert_eq!(find_url_param(&q), Some(b"http://example.test/a".to_vec()));
}

#[test]
fn finds_url_among_other_parameters() {
    let q = b"a=1&url=http://example.test/x&b=2".to_vec();
    assert_eq!(find_url_param(&q), Some(b"http://example.test/x".to_vec()));
}

#[test]
fn first_url_parameter_wins() {
    let q = b"url=http://one/&url=http://two/".to_vec();
    assert_eq!(find_url_param(&q), Some(b"http://one/".to_vec()));
}

#[test]
fn missing_url_parameter() {
    assert_eq!(find_url_param(&b"a=1&b=2".to_vec()), None);
    assert_eq!(find_url_param(&Vec::new()), None);
}

#[test]
fn scheme_check() {
    assert!(url_is_fetchable(&b"http://example.test/a".to_vec()));
    assert!(url_is_fetchable(&b"https://example.test/a".to_vec()));
    assert!(!url_is_fetchable(&b"not-a-url".to_vec()));
    assert!(!url_is_fetchable(&b"ftp://example.test/a".to_vec()));
    assert!(!url_is_fetchable(&b"http://".to_vec()));
}

#[test]
fn route_accepts_a_fetchable_target() {
    let q = b"url=http://example.test/a".to_vec();
    assert_eq!(
        route(Some(&q)),
        RouteDecision::Fetch(b"http://example.test/a".to_vec())
    );
}

#[test]
fn route_rejects_an_unparsable_target() {
    let q = b"url=not-a-url".to_vec();
    assert_eq!(route(Some(&q)), RouteDecision::Reject);
}

#[test]
fn route_rejects_a_missing_query() {
    assert_eq!(route(None), RouteDecision::Reject);
    assert_eq!(route(Some(&b"other=1".to_vec())), RouteDecision::Reject);
}

#[test]
fn empty_segments_are_skipped() {
    let q = b"&&url=http://example.test/x&".to_vec();
    assert_eq!(find_url_param(&q), Some(b"http://example.test/x".to_vec()));
}

#[test]
fn encoded_key_still_matches() {
    let q = b"%75rl=http://example.test/x".to_vec();
    assert_eq!(find_url_param(&q), Some(b"http://example.test/x".to_vec()));
}
