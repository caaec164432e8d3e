use turbocrab::storage_path::url_to_cache_path;

#[test]
fn path_is_deterministic() {
    let url = b"http://example.test/a".to_vec();
    assert_eq!(url_to_cache_path(&url), url_to_cache_path(&url));
}

#[test]
fn path_has_fixed_root_and_digest_length() {
    let path = url_to_cache_path(&b"http://example.test/a".to_vec());
    assert!(path.starts_with(b"cache/files/"));
    assert_eq!(path.len(), "cache/files/".len() + 44);
}

#[test]
fn distinct_keys_map_to_distinct_paths() {
    let p1 = url_to_cache_path(&b"http://example.test/a".to_vec());
    let p2 = url_to_cache_path(&b"http://example.test/a/".to_vec());
    let p3 = url_to_cache_path(&b"http://example.test/b".to_vec());
    assert_ne!(p1, p2);
    assert_ne!(p1, p3);
    assert_ne!(p2, p3);
}

#[test]
fn digest_matches_known_vector() {
    // SHA-256 of the empty string, in padded URL-safe base64.
    let path = url_to_cache_path(&Vec::new());
    let text = String::from_utf8(path).unwrap();
    assert_eq!(text, "cache/files/47DEQpj8HBSa-_TImW-5JCeuQeRkm5NMpJWZG3hSuFU=");
}
