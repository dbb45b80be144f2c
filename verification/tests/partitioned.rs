use pique::partitioned::{
    build_partition, compute_partition_boundaries, PartitionEntry, PartitionManifest,
};

#[test]
fn find_partition_binary_search() {
    let manifest = PartitionManifest {
        version: 1,
        total_keys: 3000,
        partition_count: 3,
        partitions: vec![
            PartitionEntry {
                max_key: "ddd".into(),
                segment_path: "seg_0.osi".into(),
                key_count: 1000,
                size_bytes: 50_000,
            },
            PartitionEntry {
                max_key: "mmm".into(),
                segment_path: "seg_1.osi".into(),
                key_count: 1000,
                size_bytes: 50_000,
            },
            PartitionEntry {
                max_key: "zzz".into(),
                segment_path: "seg_2.osi".into(),
                key_count: 1000,
                size_bytes: 50_000,
            },
        ],
    };

    // Key in first partition
    assert_eq!(manifest.find_partition(b"aaa"), Some(0));
    assert_eq!(manifest.find_partition(b"ddd"), Some(0)); // exact max_key

    // Key in second partition
    assert_eq!(manifest.find_partition(b"eee"), Some(1));
    assert_eq!(manifest.find_partition(b"mmm"), Some(1));

    // Key in third partition
    assert_eq!(manifest.find_partition(b"nnn"), Some(2));
    assert_eq!(manifest.find_partition(b"zzz"), Some(2));

    // Key beyond all (shouldn't happen with proper manifest)
    assert_eq!(manifest.find_partition(b"zzzz"), None);
}

#[test]
fn compute_boundaries() {
    assert_eq!(compute_partition_boundaries(1_000_000, 1_000_000), 1);
    assert_eq!(compute_partition_boundaries(10_000_000, 1_000_000), 10);
    assert_eq!(compute_partition_boundaries(1_000_000_000, 1_000_000), 1000);
    assert_eq!(compute_partition_boundaries(1_500_000, 1_000_000), 2); // rounds up
}

#[test]
fn build_partition_produces_valid_segment() {
    let pairs: Vec<(&[u8], &[u8])> = vec![
        (b"key_001", b"val_001"),
        (b"key_002", b"val_002"),
        (b"key_003", b"val_003"),
    ];

    let result = build_partition(&pairs, 4096).unwrap();
    assert_eq!(result.key_count, 3);
    assert_eq!(result.max_key, "key_003");
    assert!(!result.data.is_empty());

    // Verify the segment is readable
    let reader = pique::reader::SegmentReader::open(result.data).unwrap();
    assert_eq!(reader.get(b"key_002").unwrap(), Some(b"val_002".to_vec()));
}

