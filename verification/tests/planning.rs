//! Partitions, secondary indexes and statistics.

use pique::bloom::{build_filter, might_contain};
use pique::format::{DEFAULT_BLOCK_SIZE, DEFAULT_RESTART_INTERVAL};
use pique::partitioned::{
    build_partition, compute_partition_boundaries, PartitionEntry, PartitionManifest,
};
use pique::reader::SegmentReader;
use pique::secondary::{SecondaryIndexOptions, SecondaryIndexWriter};
use pique::stats::{ColumnStats, RangePredicate, StatsManifest, StatsManifestBuilder};
use pique::values::entity_location::EntityLocation;
use pique::values::location_set::LocationSet;
use pique::writer::{SegmentWriterOptions, WriterError};

fn manifest(bounds: &[&str]) -> PartitionManifest {
    PartitionManifest {
        version: 1,
        total_keys: 10,
        partition_count: bounds.len() as u32,
        partitions: bounds
            .iter()
            .map(|b| PartitionEntry {
                max_key: b.to_string(),
                segment_path: String::new(),
                key_count: 1,
                size_bytes: 7,
            })
            .collect(),
    }
}

fn stats(min: &[u8], max: &[u8]) -> ColumnStats {
    ColumnStats { min: min.to_vec(), max: max.to_vec(), null_count: 0 }
}

fn between(column: &str, min: &[u8], max: &[u8]) -> RangePredicate {
    RangePredicate { column: column.to_string(), min: min.to_vec(), max: max.to_vec() }
}

fn location(file_key: &str, row_offset: u32) -> EntityLocation {
    EntityLocation { file_key: file_key.to_string(), row_group: 0, row_offset }
}

#[test]
fn routing_edges() {
    let empty = manifest(&[]);
    assert_eq!(empty.find_partition(b"a"), None);
    assert_eq!(empty.avg_keys_per_partition(), 0);
    assert_eq!(empty.total_size_bytes(), 0);
    let three = manifest(&["d", "d", "m"]);
    assert_eq!(three.find_partition(b""), Some(0));
    assert_eq!(three.find_partition(b"d"), Some(0));
    assert_eq!(three.find_partition(b"e"), Some(2));
    // Keys are compared as bytes, text or not
    assert_eq!(three.find_partition(&[0xFF, 0xFE]), None);
    assert_eq!(three.find_partition(&[0xFF]), None);
    assert_eq!(three.find_partition(b"a\xFF"), Some(0));
    assert_eq!(three.find_partition(b"d\xFF"), Some(2));
    assert_eq!(three.total_size_bytes(), 21);
    assert_eq!(three.avg_keys_per_partition(), 3);
}

#[test]
fn partition_numbers() {
    assert_eq!(compute_partition_boundaries(0, 5), 1);
    assert_eq!(compute_partition_boundaries(5, 5), 1);
    assert_eq!(compute_partition_boundaries(6, 5), 2);
    assert_eq!(compute_partition_boundaries(usize::MAX, 1), usize::MAX);
}

#[test]
fn partitions_that_cannot_be_built() {
    assert!(matches!(build_partition(&[], 4096), Err(WriterError::EmptySegment)));
    assert!(matches!(
        build_partition(&[(b"b", b""), (b"b", b""), (b"a", b"")], 4096),
        Err(WriterError::DuplicateKey)
    ));
    assert!(matches!(
        build_partition(&[(b"b", b""), (b"a", b""), (b"a", b"")], 4096),
        Err(WriterError::KeysOutOfOrder)
    ));
}

#[test]
fn largest_key_as_text() {
    let built = build_partition(&[(b"a", b"1"), (b"b\xFFc", b"2")], 4096).unwrap();
    assert_eq!(built.max_key, "b\u{FFFD}c");
    assert_eq!(built.key_count, 2);
    let built = build_partition(&[("\u{e9}".as_bytes(), b"1")], 4096).unwrap();
    assert_eq!(built.max_key, "\u{e9}");
}

#[test]
fn secondary_index_options() {
    let opts = SecondaryIndexOptions::default();
    assert_eq!(opts.segment_options.block_size, DEFAULT_BLOCK_SIZE);
    assert_eq!(opts.segment_options.restart_interval, DEFAULT_RESTART_INTERVAL);
    assert!(opts.segment_options.enable_bloom);
    let mut writer = SecondaryIndexWriter::with_options(SecondaryIndexOptions {
        segment_options: SegmentWriterOptions {
            block_size: 64,
            restart_interval: 1,
            enable_bloom: false,
        },
    });
    for i in (0..50u32).rev() {
        writer.add_location(format!("k{:02}", i % 10).as_bytes(), location("f", i));
    }
    assert_eq!(writer.key_count(), 10);
    assert_eq!(writer.total_locations(), 50);
    let output = writer.finish().unwrap();
    assert_eq!(output.meta.key_count, 10);
    assert_eq!(output.meta.min_key, b"k00");
    let reader = SegmentReader::open(output.data).unwrap();
    assert!(reader.might_contain(b"anything"));
    let set = LocationSet::decode(&reader.get(b"k03").unwrap().unwrap()).unwrap();
    let offsets: Vec<u32> = set.locations.iter().map(|l| l.row_offset).collect();
    assert_eq!(offsets, vec![43, 33, 23, 13, 3]);
    assert_eq!(reader.get(b"k10").unwrap(), None);
    assert!(SecondaryIndexWriter::default().finish().is_err());
}

#[test]
fn columns_given_twice_keep_the_last() {
    let mut m = StatsManifest::default();
    m.add_row_group(
        "f",
        4,
        vec![
            ("x".into(), stats(b"a", b"b")),
            ("w".into(), stats(b"a", b"b")),
            ("x".into(), stats(b"p", b"q")),
        ],
    );
    let mut same = StatsManifest::new();
    same.add_row_group(
        "f",
        4,
        vec![("w".into(), stats(b"a", b"b")), ("x".into(), stats(b"p", b"q"))],
    );
    assert_eq!(m, same);
    assert_eq!(m.query_overlap_single(&between("x", b"a", b"b")).len(), 0);
    let hits = m.query_overlap_single(&between("x", b"q", b"z"));
    assert_eq!(hits.len(), 1);
    assert_eq!(hits[0].file, "f");
    assert_eq!(hits[0].row_group, 4);
}

#[test]
fn row_groups_gather_by_file() {
    let mut m = StatsManifest::new();
    m.add_row_group("f", 0, vec![]);
    m.add_row_group("g", 0, vec![]);
    m.add_row_group("f", 1, vec![]);
    assert_eq!(m.version, 1);
    assert_eq!(m.file_count(), 2);
    assert_eq!(m.total_row_groups(), 3);
    let refs: Vec<(String, u32)> =
        m.query_overlap(&[]).into_iter().map(|r| (r.file, r.row_group)).collect();
    assert_eq!(
        refs,
        vec![("f".to_string(), 0), ("f".to_string(), 1), ("g".to_string(), 0)]
    );
}

#[test]
fn built_manifests_gather_as_well() {
    let mut b = StatsManifestBuilder::new();
    for i in 0..12 {
        b = b.add_row_group(&format!("f{}", i % 5), i, vec![]);
    }
    let m = b.build();
    assert_eq!(m.file_count(), 5);
    assert_eq!(m.total_row_groups(), 12);
    let first: Vec<u32> = m.files[0].row_groups.iter().map(|g| g.row_group).collect();
    assert_eq!(first, vec![0, 5, 10]);
}

#[test]
fn order_of_adding_locations() {
    let adds = [("k", 1), ("j", 2), ("k", 3), ("m", 4), ("j", 5)];
    let others = [("m", 4), ("j", 2), ("j", 5), ("k", 1), ("k", 3)];
    let swapped = [("k", 3), ("j", 2), ("k", 1), ("m", 4), ("j", 5)];
    let data = |adds: &[(&str, u32)]| {
        let mut w = SecondaryIndexWriter::new();
        for (key, row) in adds {
            w.add_location(key.as_bytes(), location("f", *row));
        }
        assert_eq!(w.key_count(), 3);
        assert_eq!(w.total_locations(), adds.len());
        w.finish().unwrap().data
    };
    assert_eq!(data(&adds), data(&others));
    assert_ne!(data(&adds), data(&swapped));
}

#[test]
fn filters_of_repeated_keys() {
    let keys: Vec<&[u8]> = vec![b"a", b"b", b"a"];
    let filter = build_filter(&keys);
    let once: Vec<&[u8]> = vec![b"a", b"b"];
    assert_eq!(filter, build_filter(&once));
    assert!(might_contain(&filter, b"a"));
    assert!(might_contain(&filter, b"b"));
    // Too short to be a filter: nothing can be ruled out
    assert!(might_contain(&filter[..15], b"zzz"));
    assert!(build_filter(&[]).is_empty());
}
