//! Layers, merging and the rules that recommend it.

use pique::layered::{
    merge_segments, merge_segments_checked, resolve_layer, tombstone_value, too_many_deltas,
    LayeredIndexManifest, LayeredReader, SegmentRef,
};
use pique::reader::{ReaderError, SegmentReader};
use pique::sorted_map::SortedMap;
use pique::writer::{SegmentWriter, SegmentWriterOptions};

fn segment(entries: &[(&[u8], &[u8])]) -> SegmentReader {
    let mut writer = SegmentWriter::new(SegmentWriterOptions::default());
    for (key, value) in entries {
        writer.add(key, value).unwrap();
    }
    SegmentReader::open(writer.finish().unwrap().data).unwrap()
}

fn three_layers() -> Vec<SegmentReader> {
    vec![
        segment(&[(b"b", &tombstone_value()), (b"e", b"e3")]),
        segment(&[(b"a", b"a2"), (b"b", b"b2"), (b"d", &tombstone_value())]),
        segment(&[(b"a", b"a1"), (b"b", b"b1"), (b"c", b"c1"), (b"d", b"d1")]),
    ]
}

#[test]
fn merge_keeps_every_lookup() {
    let merged = SegmentReader::open(merge_segments(&three_layers()).unwrap()).unwrap();
    let layered = LayeredReader::new(three_layers());
    for key in [b"a", b"b", b"c", b"d", b"e", b"f"] {
        assert_eq!(merged.get(key).unwrap(), layered.get(key).unwrap());
    }
    assert_eq!(
        merged.iter().unwrap(),
        vec![
            (b"a".to_vec(), b"a2".to_vec()),
            (b"c".to_vec(), b"c1".to_vec()),
            (b"e".to_vec(), b"e3".to_vec()),
        ]
    );
    assert_eq!(layered.segment_count(), 3);
    assert_eq!(layered.total_keys(), 9);
    assert!(!layered.should_merge());
}

#[test]
fn merge_of_one_segment_changes_nothing() {
    let one = segment(&[(b"a", b"1"), (b"b", b"2")]);
    let before = one.iter().unwrap();
    let merged = SegmentReader::open(merge_segments(&[one]).unwrap()).unwrap();
    assert_eq!(merged.iter().unwrap(), before);
}

#[test]
fn merge_of_nothing_is_an_error() {
    let text = "merge finish error: Cannot finish an empty segment (no entries added)";
    match merge_segments(&[]) {
        Err(ReaderError::FstError(e)) => assert_eq!(e, text),
        other => panic!("{:?}", other),
    }
    let only_tombstones = vec![segment(&[(b"a", &tombstone_value())])];
    match merge_segments_checked(&only_tombstones) {
        Some(Err(ReaderError::FstError(e))) => assert_eq!(e, text),
        other => panic!("{:?}", other),
    }
    assert!(merge_segments_checked(&three_layers()).unwrap().is_ok());
}

#[test]
fn answers_of_layers() {
    assert_eq!(resolve_layer(None), None);
    assert_eq!(resolve_layer(Some(tombstone_value())), Some(None));
    assert_eq!(resolve_layer(Some(b"v".to_vec())), Some(Some(b"v".to_vec())));
    assert!(!too_many_deltas(0));
    assert!(!too_many_deltas(1));
    assert!(!too_many_deltas(10));
    assert!(too_many_deltas(11));
}

#[test]
fn deltas_above_thirty_percent_are_merged() {
    let part = |size_bytes: u64| SegmentRef {
        path: "p".to_string(),
        key_count: 1,
        size_bytes,
        generation: 1,
    };
    let merge = |base: u64, delta: u64| {
        LayeredIndexManifest { base: part(base), deltas: vec![part(delta)] }.should_merge()
    };
    assert!(!merge(10, 3));
    assert!(merge(10, 4));
    assert!(!merge(0, 0));
    assert!(merge(0, 1));
    for shift in 0..60 {
        assert!(!merge((1 << shift) * 10, (1 << shift) * 3));
        assert!(merge((1 << shift) * 10, (1 << shift) * 3 + 1));
    }
    assert!(merge(u64::MAX, u64::MAX));
    assert!(!merge(u64::MAX, u64::MAX / 10 * 3));
}

#[test]
fn manifest_sums_and_paths() {
    let part = |path: &str, key_count: u32, size_bytes: u64| SegmentRef {
        path: path.to_string(),
        key_count,
        size_bytes,
        generation: 1,
    };
    let mut manifest = LayeredIndexManifest { base: part("base", 100, 1000), deltas: vec![] };
    assert!(!manifest.should_merge());
    manifest.deltas.push(part("d2", 7, 200));
    manifest.deltas.push(part("d1", 5, 99));
    assert_eq!(manifest.total_keys_upper_bound(), 112);
    assert_eq!(manifest.total_size_bytes(), 1299);
    assert_eq!(manifest.delta_count(), 2);
    assert_eq!(manifest.all_paths(), vec!["base", "d2", "d1"]);
    assert!(!manifest.should_merge());
    manifest.deltas.push(part("d0", 5, 1));
    assert!(!manifest.should_merge());
    manifest.deltas.push(part("d3", 0, 1));
    assert!(manifest.should_merge());
}

#[test]
fn sorted_maps() {
    let mut map: SortedMap<u32> = SortedMap::new();
    for (key, value) in [(b"m", 1), (b"c", 2), (b"x", 3), (b"m", 4)] {
        map.insert(key.to_vec(), value);
    }
    assert_eq!(map.len(), 3);
    assert_eq!(map.place(b"m"), (1, true));
    assert_eq!(map.place(b"n"), (2, false));
    assert_eq!(map.entry(1), (&b"m".to_vec(), &4));
    assert_eq!(map.exchange(1, 9), 4);
    map.remove(b"c");
    map.remove(b"nothing");
    assert_eq!(map.len(), 2);
    assert_eq!(map.entry(0), (&b"m".to_vec(), &9));
    assert_eq!(map.entry(1), (&b"x".to_vec(), &3));
}
