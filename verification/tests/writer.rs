use pique::format::{Footer, DEFAULT_BLOCK_SIZE, DEFAULT_RESTART_INTERVAL, FOOTER_SIZE};
use pique::writer::{SegmentWriter, SegmentWriterOptions, WriterError};

#[test]
fn build_simple_segment() {
    let mut writer = SegmentWriter::new(SegmentWriterOptions {
        block_size: 256, // Small blocks to force multiple blocks
        restart_interval: 4,
        enable_bloom: true,
    });

    for i in 0..100u32 {
        let key = format!("key_{:06}", i);
        let val = format!("value_{:06}", i);
        writer.add(key.as_bytes(), val.as_bytes()).unwrap();
    }

    let output = writer.finish().unwrap();

    // Verify metadata
    assert_eq!(output.meta.key_count, 100);
    assert_eq!(output.meta.min_key, b"key_000000");
    assert_eq!(output.meta.max_key, b"key_000099");
    assert!(output.meta.size_bytes > 0);
    assert_eq!(output.data.len(), output.meta.size_bytes as usize);

    // Verify footer can be read back
    let footer_start = output.data.len() - FOOTER_SIZE;
    let footer_bytes: &[u8; FOOTER_SIZE] =
        output.data[footer_start..].try_into().unwrap();
    let footer = Footer::from_bytes(footer_bytes).unwrap();

    assert_eq!(footer.key_count, 100);
    assert!(footer.bloom_length > 0);
    assert!(footer.fst_length > 0);
    assert_eq!(footer.data_blocks_offset, 0);
    assert!(footer.data_blocks_length > 0);
}

#[test]
fn rejects_unsorted_keys() {
    let mut writer = SegmentWriter::new(SegmentWriterOptions::default());
    writer.add(b"bbb", b"1").unwrap();
    let result = writer.add(b"aaa", b"2");
    assert!(matches!(result, Err(WriterError::KeysOutOfOrder)));
}

#[test]
fn rejects_duplicate_keys() {
    let mut writer = SegmentWriter::new(SegmentWriterOptions::default());
    writer.add(b"aaa", b"1").unwrap();
    let result = writer.add(b"aaa", b"2");
    assert!(matches!(result, Err(WriterError::DuplicateKey)));
}

#[test]
fn rejects_empty_segment() {
    let writer = SegmentWriter::new(SegmentWriterOptions::default());
    let result = writer.finish();
    assert!(matches!(result, Err(WriterError::EmptySegment)));
}

#[test]
fn segment_with_large_values() {
    let mut writer = SegmentWriter::new(SegmentWriterOptions {
        block_size: 4096,
        restart_interval: 8,
        enable_bloom: true,
    });

    // Simulate adjacency lists (large values)
    for i in 0..50u32 {
        let key = format!("entity_{:06}", i);
        // Value is a "compressed adjacency list" — just random bytes for now
        let val = vec![i as u8; 500]; // 500-byte values
        writer.add(key.as_bytes(), &val).unwrap();
    }

    let output = writer.finish().unwrap();
    assert_eq!(output.meta.key_count, 50);
    // With 500-byte values and 4KB blocks, expect ~6-8 entries per block
    // So ~7-9 blocks
    assert!(output.data.len() > 50 * 500); // At least the raw values
}

#[test]
fn no_bloom_filter_option() {
    let mut writer = SegmentWriter::new(SegmentWriterOptions {
        block_size: DEFAULT_BLOCK_SIZE,
        restart_interval: DEFAULT_RESTART_INTERVAL,
        enable_bloom: false,
    });

    writer.add(b"key1", b"val1").unwrap();
    writer.add(b"key2", b"val2").unwrap();

    let output = writer.finish().unwrap();

    let footer_start = output.data.len() - FOOTER_SIZE;
    let footer_bytes: &[u8; FOOTER_SIZE] =
        output.data[footer_start..].try_into().unwrap();
    let footer = Footer::from_bytes(footer_bytes).unwrap();

    // Bloom section should be empty
    assert_eq!(footer.bloom_length, 0);
}
