use pique::bloom::{build_filter, might_contain};

#[test]
fn build_and_query_filter() {
    let keys: Vec<&[u8]> = vec![
        b"entity_001",
        b"entity_002",
        b"entity_003",
        b"entity_100",
        b"some/path/file.rs",
    ];

    let filter_bytes = build_filter(&keys);
    assert!(!filter_bytes.is_empty());

    // All inserted keys should be found
    for key in &keys {
        assert!(
            might_contain(&filter_bytes, key),
            "Key {:?} should be found",
            key
        );
    }

    // Non-existent keys should mostly NOT be found (probabilistic)
    let mut false_positives = 0;
    for i in 0..1000 {
        let fake_key = format!("nonexistent_key_{}", i);
        if might_contain(&filter_bytes, fake_key.as_bytes()) {
            false_positives += 1;
        }
    }
    // XOR8 has ~0.39% FP rate. With 1000 queries, expect ~4 false positives.
    // Allow up to 20 to account for variance.
    assert!(
        false_positives < 20,
        "Too many false positives: {} out of 1000",
        false_positives
    );
}

#[test]
fn empty_filter_always_returns_true() {
    let filter_bytes = build_filter(&[]);
    assert!(might_contain(&filter_bytes, b"anything"));
}

#[test]
fn large_key_set() {
    let keys: Vec<Vec<u8>> = (0..10_000)
        .map(|i| format!("acme/myproject::src/query/src/entity_{:06}", i).into_bytes())
        .collect();
    let key_refs: Vec<&[u8]> = keys.iter().map(|k| k.as_slice()).collect();

    let filter_bytes = build_filter(&key_refs);

    // Size should be roughly 10000 * 1.23 bytes (XOR8 overhead)
    // Plus 16 bytes metadata
    assert!(filter_bytes.len() < 15_000, "Filter too large: {}", filter_bytes.len());
    assert!(filter_bytes.len() > 10_000, "Filter suspiciously small: {}", filter_bytes.len());

    // Spot-check membership
    assert!(might_contain(&filter_bytes, keys[0].as_slice()));
    assert!(might_contain(&filter_bytes, keys[5000].as_slice()));
    assert!(might_contain(&filter_bytes, keys[9999].as_slice()));
}
