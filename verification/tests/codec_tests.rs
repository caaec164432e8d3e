use turbocrab::codec::{decode, decode_cached, encode, DecodeError};
use turbocrab::entry::CachedResponseBuilder;

fn sample_headers() -> Vec<(Vec<u8>, Vec<u8>)> {
    vec![
        (b"Content-Type".to_vec(), b"text/plain".to_vec()),
        (b"Set-Cookie".to_vec(), b"a=1".to_vec()),
        (b"Set-Cookie".to_vec(), b"b=2".to_vec()),
        (b"X-Empty".to_vec(), Vec::new()),
    ]
}

#[test]
fn round_trip_entry() {
    let entry = CachedResponseBuilder::new(b"http://example.test/a".to_vec(), 200)
        .with_headers(sample_headers())
        .with_body(b"hello".to_vec())
        .build();
    let bytes = encode(&entry);
    let decoded = decode(&bytes).expect("a fresh encoding must decode");
    assert_eq!(decoded, entry);
}

#[test]
fn round_trip_minimal_entry() {
    let entry = CachedResponseBuilder::new(Vec::new(), 204).build();
    let bytes = encode(&entry);
    let decoded = decode(&bytes).expect("a fresh encoding must decode");
    assert_eq!(decoded, entry);
    assert_eq!(decoded.status(), 204);
    assert!(decoded.body().is_empty());
}

#[test]
fn round_trip_preserves_header_order_and_case() {
    let entry = CachedResponseBuilder::new(b"http://example.test/h".to_vec(), 200)
        .with_headers(vec![
            (b"B".to_vec(), b"2".to_vec()),
            (b"A".to_vec(), b"1".to_vec()),
            (b"a".to_vec(), b"3".to_vec()),
        ])
        .build();
    let decoded = decode(&encode(&entry)).unwrap();
    assert_eq!(
        decoded.headers(),
        &vec![
            (b"B".to_vec(), b"2".to_vec()),
            (b"A".to_vec(), b"1".to_vec()),
            (b"a".to_vec(), b"3".to_vec()),
        ]
    );
}

#[test]
fn decode_empty_is_truncated() {
    assert_eq!(decode(&Vec::new()), Err(DecodeError::Truncated));
}

#[test]
fn decode_wrong_tag_is_bad_tag() {
    let bytes = vec![9u8, 9, 9, 0, 0, 0, 0, 0];
    assert_eq!(decode(&bytes), Err(DecodeError::BadTag));
}

#[test]
fn decode_cut_encoding_is_truncated() {
    let entry = CachedResponseBuilder::new(b"http://example.test/t".to_vec(), 200)
        .with_body(b"body".to_vec())
        .build();
    let mut bytes = encode(&entry);
    bytes.pop();
    assert_eq!(decode(&bytes), Err(DecodeError::Truncated));
}

#[test]
fn decode_trailing_garbage_is_rejected() {
    let entry = CachedResponseBuilder::new(b"http://example.test/t".to_vec(), 200).build();
    let mut bytes = encode(&entry);
    bytes.push(0);
    assert_eq!(decode(&bytes), Err(DecodeError::TrailingBytes));
}

#[test]
fn decode_cached_fails_closed() {
    assert!(decode_cached(&b"damaged".to_vec()).is_none());
    let entry = CachedResponseBuilder::new(b"http://example.test/ok".to_vec(), 200)
        .with_body(b"x".to_vec())
        .build();
    assert_eq!(decode_cached(&encode(&entry)), Some(entry));
}
