use pique::reader::SegmentReader;
use pique::writer::{SegmentWriter, SegmentWriterOptions};

fn build_test_segment(count: u32, block_size: u32) -> Vec<u8> {
    let mut writer = SegmentWriter::new(SegmentWriterOptions {
        block_size,
        restart_interval: 4,
        enable_bloom: true,
    });

    for i in 0..count {
        let key = format!("key_{:06}", i);
        let val = format!("value_{:06}", i);
        writer.add(key.as_bytes(), val.as_bytes()).unwrap();
    }

    writer.finish().unwrap().data
}

#[test]
fn open_and_query_segment() {
    let data = build_test_segment(100, 512);
    let reader = SegmentReader::open(data).unwrap();

    assert_eq!(reader.key_count(), 100);

    let result = reader.get(b"key_000000").unwrap();
    assert_eq!(result, Some(b"value_000000".to_vec()));

    let result = reader.get(b"key_000050").unwrap();
    assert_eq!(result, Some(b"value_000050".to_vec()));

    let result = reader.get(b"key_000099").unwrap();
    assert_eq!(result, Some(b"value_000099".to_vec()));
}

#[test]
fn query_missing_keys() {
    let data = build_test_segment(100, 512);
    let reader = SegmentReader::open(data).unwrap();

    assert_eq!(reader.get(b"key_000100").unwrap(), None);
    assert_eq!(reader.get(b"aaa_before").unwrap(), None);
    assert_eq!(reader.get(b"key_000050x").unwrap(), None);
}

#[test]
fn bloom_filter_rejects_missing_keys() {
    let data = build_test_segment(1000, 4096);
    let reader = SegmentReader::open(data).unwrap();

    let mut bloom_rejections = 0;
    for i in 2000..3000 {
        let key = format!("nonexistent_{:06}", i);
        if !reader.might_contain(key.as_bytes()) {
            bloom_rejections += 1;
        }
    }

    assert!(
        bloom_rejections > 990,
        "Bloom should reject most missing keys, only rejected {}",
        bloom_rejections
    );
}

#[test]
fn large_segment_correctness() {
    let count = 10_000;
    let data = build_test_segment(count, 64 * 1024);
    let reader = SegmentReader::open(data).unwrap();

    assert_eq!(reader.key_count(), count);

    for i in (0..count).step_by(100) {
        let key = format!("key_{:06}", i);
        let expected_val = format!("value_{:06}", i);
        let result = reader.get(key.as_bytes()).unwrap();
        assert_eq!(
            result,
            Some(expected_val.into_bytes()),
            "Failed for key {}",
            key
        );
    }
}

#[test]
fn single_entry_segment() {
    let mut writer = SegmentWriter::new(SegmentWriterOptions::default());
    writer.add(b"only_key", b"only_value").unwrap();
    let output = writer.finish().unwrap();

    let reader = SegmentReader::open(output.data).unwrap();
    assert_eq!(reader.key_count(), 1);
    assert_eq!(reader.get(b"only_key").unwrap(), Some(b"only_value".to_vec()));
    assert_eq!(reader.get(b"other").unwrap(), None);
}

#[test]
fn segment_with_long_keys() {
    let mut writer = SegmentWriter::new(SegmentWriterOptions {
        block_size: 64 * 1024,
        restart_interval: 16,
        enable_bloom: true,
    });

    let keys: Vec<String> = (0..500)
        .map(|i| {
            format!(
                "acme/myproject::src/query/src/translation.rs::function::execute_query_{:04}",
                i
            )
        })
        .collect();

    for (i, key) in keys.iter().enumerate() {
        let val = format!("{{\"file\": \"part-{}.parquet\", \"row_group\": {}}}", i / 100, i % 100);
        writer.add(key.as_bytes(), val.as_bytes()).unwrap();
    }

    let output = writer.finish().unwrap();
    let reader = SegmentReader::open(output.data).unwrap();

    assert_eq!(reader.key_count(), 500);

    let result = reader.get(keys[0].as_bytes()).unwrap();
    assert!(result.is_some());

    let result = reader.get(keys[250].as_bytes()).unwrap();
    assert!(result.is_some());
    let val_str = String::from_utf8(result.unwrap()).unwrap();
    assert!(val_str.contains("\"row_group\": 50"));

    let result = reader.get(b"acme/myproject::nonexistent").unwrap();
    assert_eq!(result, None);
}

#[test]
fn open_from_tail_parses_metadata() {
    let data = build_test_segment(1000, 4096);
    let segment_size = data.len() as u64;

    // Simulate a tail read — last 256KB (or the whole thing if smaller)
    let tail_size = (256 * 1024).min(data.len());
    let tail = &data[data.len() - tail_size..];

    let meta = SegmentReader::open_from_tail(tail, segment_size).unwrap();
    assert_eq!(meta.key_count(), 1000);

    // Verify bloom works
    assert!(meta.might_contain(b"key_000500"));

    // Verify FST lookup works
    let offset = meta.block_offset_for_key(b"key_000500");
    assert!(offset.is_some());
}
