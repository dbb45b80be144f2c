use pique::layered::{
    is_tombstone, merge_segments, tombstone_value, LayeredIndexManifest, LayeredReader, SegmentRef,
};
use pique::reader::SegmentReader;
use pique::writer::{SegmentWriter, SegmentWriterOptions};

fn build_segment(entries: &[(&[u8], &[u8])]) -> Vec<u8> {
    let mut writer = SegmentWriter::new(SegmentWriterOptions {
        block_size: 4096,
        restart_interval: 4,
        enable_bloom: true,
    });
    for (k, v) in entries {
        writer.add(k, v).unwrap();
    }
    writer.finish().unwrap().data
}

#[test]
fn layered_reader_delta_shadows_base() {
    let base = build_segment(&[
        (b"key_a", b"base_value_a"),
        (b"key_b", b"base_value_b"),
        (b"key_c", b"base_value_c"),
    ]);
    let delta = build_segment(&[(b"key_b", b"updated_value_b")]);

    let base_reader = SegmentReader::open(base).unwrap();
    let delta_reader = SegmentReader::open(delta).unwrap();

    // Delta first (newest), then base
    let layered = LayeredReader::new(vec![delta_reader, base_reader]);

    // key_b comes from delta (shadowed)
    assert_eq!(
        layered.get(b"key_b").unwrap(),
        Some(b"updated_value_b".to_vec())
    );
    // key_a comes from base (not in delta)
    assert_eq!(
        layered.get(b"key_a").unwrap(),
        Some(b"base_value_a".to_vec())
    );
    // key_c comes from base
    assert_eq!(
        layered.get(b"key_c").unwrap(),
        Some(b"base_value_c".to_vec())
    );
}

#[test]
fn layered_reader_tombstone_deletes() {
    let base = build_segment(&[
        (b"key_a", b"value_a"),
        (b"key_b", b"value_b"),
        (b"key_c", b"value_c"),
    ]);
    // Delta tombstones key_b
    let delta = build_segment(&[(b"key_b", &tombstone_value())]);

    let base_reader = SegmentReader::open(base).unwrap();
    let delta_reader = SegmentReader::open(delta).unwrap();
    let layered = LayeredReader::new(vec![delta_reader, base_reader]);

    // key_b is deleted — returns None even though base has it
    assert_eq!(layered.get(b"key_b").unwrap(), None);
    // Others unaffected
    assert_eq!(layered.get(b"key_a").unwrap(), Some(b"value_a".to_vec()));
    assert_eq!(layered.get(b"key_c").unwrap(), Some(b"value_c".to_vec()));
}

#[test]
fn layered_reader_multiple_deltas() {
    let base = build_segment(&[(b"key_a", b"v1"), (b"key_b", b"v1"), (b"key_c", b"v1")]);
    let delta1 = build_segment(&[
        (b"key_a", b"v2"), // updated in delta1
    ]);
    let delta2 = build_segment(&[
        (b"key_a", b"v3"),     // updated again in delta2 (newest)
        (b"key_d", b"v1_new"), // new key in delta2
    ]);

    let base_r = SegmentReader::open(base).unwrap();
    let d1_r = SegmentReader::open(delta1).unwrap();
    let d2_r = SegmentReader::open(delta2).unwrap();

    // Order: newest (delta2) → delta1 → base
    let layered = LayeredReader::new(vec![d2_r, d1_r, base_r]);

    assert_eq!(layered.get(b"key_a").unwrap(), Some(b"v3".to_vec())); // newest delta wins
    assert_eq!(layered.get(b"key_b").unwrap(), Some(b"v1".to_vec())); // from base
    assert_eq!(layered.get(b"key_c").unwrap(), Some(b"v1".to_vec())); // from base
    assert_eq!(layered.get(b"key_d").unwrap(), Some(b"v1_new".to_vec())); // new in delta2
    assert_eq!(layered.get(b"key_z").unwrap(), None); // doesn't exist anywhere
}

#[test]
fn merge_combines_and_applies_tombstones() {
    let base = build_segment(&[
        (b"key_a", b"value_a"),
        (b"key_b", b"value_b"),
        (b"key_c", b"value_c"),
    ]);
    let delta = build_segment(&[
        (b"key_b", &tombstone_value()), // delete key_b
        (b"key_d", b"value_d"),         // add key_d
    ]);

    let base_r = SegmentReader::open(base).unwrap();
    let delta_r = SegmentReader::open(delta).unwrap();

    // Merge: newest first
    let merged_bytes = merge_segments(&[delta_r, base_r]).unwrap();
    let merged = SegmentReader::open(merged_bytes).unwrap();

    assert_eq!(merged.key_count(), 3); // a, c, d (b was tombstoned)
    assert_eq!(merged.get(b"key_a").unwrap(), Some(b"value_a".to_vec()));
    assert_eq!(merged.get(b"key_b").unwrap(), None); // deleted
    assert_eq!(merged.get(b"key_c").unwrap(), Some(b"value_c".to_vec()));
    assert_eq!(merged.get(b"key_d").unwrap(), Some(b"value_d".to_vec()));
}

#[test]
fn merge_newest_value_wins() {
    let base = build_segment(&[(b"key_x", b"old")]);
    let delta = build_segment(&[(b"key_x", b"new")]);

    let base_r = SegmentReader::open(base).unwrap();
    let delta_r = SegmentReader::open(delta).unwrap();

    let merged_bytes = merge_segments(&[delta_r, base_r]).unwrap();
    let merged = SegmentReader::open(merged_bytes).unwrap();

    assert_eq!(merged.get(b"key_x").unwrap(), Some(b"new".to_vec()));
}

#[test]
fn tombstone_encoding() {
    let tv = tombstone_value();
    assert!(is_tombstone(&tv));
    assert!(!is_tombstone(b"regular value"));
    assert!(!is_tombstone(&[0xFF, 0x01])); // more than 1 byte — not a tombstone
    assert!(!is_tombstone(&[])); // empty — not a tombstone
}

#[test]
fn manifest_should_merge() {
    let base = SegmentRef {
        path: "base.osi".into(),
        key_count: 100_000,
        size_bytes: 7_000_000,
        generation: 1,
    };

    // Under threshold — no merge
    let manifest = LayeredIndexManifest {
        base: base.clone(),
        deltas: vec![SegmentRef {
            path: "d1.osi".into(),
            key_count: 50,
            size_bytes: 5_000,
            generation: 2,
        }],
    };
    assert!(!manifest.should_merge());

    // Over count threshold — merge
    let many_deltas: Vec<SegmentRef> = (0..10)
        .map(|i| SegmentRef {
            path: format!("d{}.osi", i),
            key_count: 50,
            size_bytes: 5_000,
            generation: i + 2,
        })
        .collect();
    let manifest = LayeredIndexManifest {
        base: base.clone(),
        deltas: many_deltas,
    };
    assert!(manifest.should_merge());

    // Over size ratio — merge
    let big_delta = vec![SegmentRef {
        path: "big_d.osi".into(),
        key_count: 30_000,
        size_bytes: 2_500_000, // ~35% of base
        generation: 2,
    }];
    let manifest = LayeredIndexManifest {
        base,
        deltas: big_delta,
    };
    assert!(manifest.should_merge());
}

#[test]
fn bloom_rejects_avoid_io() {
    // Build a base with keys starting with "base_"
    let base = build_segment(&[
        (b"base_001", b"v1"),
        (b"base_002", b"v2"),
        (b"base_003", b"v3"),
    ]);
    // Build a delta with keys starting with "delta_"
    let delta = build_segment(&[(b"delta_001", b"v1")]);

    let base_r = SegmentReader::open(base).unwrap();
    let delta_r = SegmentReader::open(delta).unwrap();
    let layered = LayeredReader::new(vec![delta_r, base_r]);

    // Looking up "base_002" — delta's bloom should reject without checking base
    // (We can't directly measure "no I/O" in a unit test, but correctness proves
    // the bloom path works)
    assert_eq!(layered.get(b"base_002").unwrap(), Some(b"v2".to_vec()));

    // Non-existent key — both blooms reject
    assert_eq!(layered.get(b"nonexistent").unwrap(), None);
}
