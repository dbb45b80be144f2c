//! Damaged segments: no reading panics, and errors say what is damaged.

use pique::block::BlockError;
use pique::format::{Footer, FormatError, FOOTER_SIZE};
use pique::reader::ReaderError;
use pique::StorageError;
use pique::{SegmentReader, SegmentWriter, SegmentWriterOptions};

/// Helper: build a valid segment with the given key count and block size.
fn build_segment(count: u32, block_size: u32) -> Vec<u8> {
    let mut writer = SegmentWriter::new(SegmentWriterOptions {
        block_size,
        restart_interval: 4,
        enable_bloom: true,
    });

    for i in 0..count {
        let key = format!("key_{:06}", i);
        let val = format!("value_{:06}", i);
        writer.add(key.as_bytes(), val.as_bytes()).unwrap();
    }

    writer.finish().unwrap().data
}

/// Helper: build a segment with bloom disabled.
fn build_segment_no_bloom(count: u32) -> Vec<u8> {
    let mut writer = SegmentWriter::new(SegmentWriterOptions {
        block_size: 4096,
        restart_interval: 4,
        enable_bloom: false,
    });

    for i in 0..count {
        let key = format!("key_{:06}", i);
        let val = format!("value_{:06}", i);
        writer.add(key.as_bytes(), val.as_bytes()).unwrap();
    }

    writer.finish().unwrap().data
}

/// Helper: read the footer from a segment.
fn read_footer(data: &[u8]) -> Footer {
    let start = data.len() - FOOTER_SIZE;
    let bytes: &[u8; FOOTER_SIZE] = data[start..].try_into().unwrap();
    Footer::from_bytes(bytes).unwrap()
}

/// Helper: write a custom footer with valid CRC over crafted fields.
fn make_footer_bytes(footer: &Footer) -> [u8; FOOTER_SIZE] {
    footer.to_bytes()
}

// Data block CRC mismatch

#[test]
fn case_01_data_block_crc_mismatch() {
    let mut data = build_segment(100, 512);
    let footer = read_footer(&data);

    // Corrupt a byte in the data blocks region (first few bytes)
    assert!(footer.data_blocks_length > 10);
    data[5] ^= 0xFF;

    let reader = SegmentReader::open(data).unwrap();

    // The reader opens fine (footer/bloom/FST are intact). The corruption
    // shows up when we try to read the corrupted block.
    let result = reader.get(b"key_000000");
    assert!(result.is_err());
    let err = result.unwrap_err();
    assert!(err.is_corruption());
    assert!(
        matches!(err, ReaderError::Block(_)),
        "Expected Block error, got: {:?}",
        err
    );
}

// FST region corrupt

#[test]
fn case_02_fst_region_corrupt() {
    let mut data = build_segment(100, 512);
    let footer = read_footer(&data);

    // The FST crate is surprisingly resilient to random byte flips in the
    // middle of the automaton. To reliably trigger an error, we need to
    // corrupt the FST header (first 8 bytes contain version + type info).
    let fst_start = footer.fst_offset as usize;

    // Zero out the entire FST region — this will definitely fail to parse
    let fst_end = fst_start + footer.fst_length as usize;
    for i in fst_start..fst_end {
        data[i] = 0x00;
    }

    let result = SegmentReader::open(data);
    assert!(result.is_err());
    let err = result.unwrap_err();
    assert!(err.is_corruption());
    assert!(
        matches!(err, ReaderError::FstError(_)),
        "Expected FstError, got: {:?}",
        err
    );
}

// Bloom region corrupt — no panic, graceful degradation

#[test]
fn case_03_bloom_region_corrupt_no_panic() {
    let mut data = build_segment(1000, 4096);
    let footer = read_footer(&data);

    // Corrupt the bloom filter region heavily
    let bloom_start = footer.bloom_offset as usize;
    let bloom_end = bloom_start + footer.bloom_length as usize;
    for i in bloom_start..bloom_end {
        data[i] ^= 0xFF;
    }

    // Reader should open without panicking
    let reader = SegmentReader::open(data).unwrap();

    // Bloom filter with corrupt data should either:
    // - Return true for all checks (conservative — "might contain" is always safe)
    // - Or return false positives/negatives (bloom is probabilistic anyway)
    // The key property: it MUST NOT panic.
    for i in 0..100 {
        let key = format!("key_{:06}", i);
        // We don't assert the result — just that it doesn't panic
        let _ = reader.might_contain(key.as_bytes());
    }

    // Gets should also not panic. They may fail to find keys (bloom says no)
    // or may find them (bloom says maybe, FST confirms). Either is acceptable.
    for i in 0..10 {
        let key = format!("key_{:06}", i);
        let _ = reader.get(key.as_bytes());
    }
}

#[test]
fn case_03_bloom_truncated_no_panic() {
    let mut data = build_segment(100, 512);
    let footer = read_footer(&data);

    // Truncate bloom to just 2 bytes (the deserializer needs at least 16)
    let bloom_start = footer.bloom_offset as usize;
    // Zero out most of the bloom leaving just the first 2 bytes
    let bloom_end = bloom_start + footer.bloom_length as usize;
    for i in (bloom_start + 2)..bloom_end {
        data[i] = 0;
    }

    let reader = SegmentReader::open(data).unwrap();

    // With a corrupted/too-short bloom, might_contain should return true
    // (conservative — "can't tell, check anyway")
    // The key property: MUST NOT panic
    for i in 0..50 {
        let key = format!("key_{:06}", i);
        let _ = reader.might_contain(key.as_bytes());
        let _ = reader.get(key.as_bytes());
    }
}

// Footer offsets out of bounds

#[test]
fn case_04_footer_fst_offset_beyond_segment() {
    let data = build_segment(100, 512);
    let segment_size = data.len();

    // Construct a footer with FST offset pointing beyond the segment
    let mut footer = read_footer(&data);
    footer.fst_offset = segment_size as u64 + 1000; // Way beyond

    // Replace the footer in the segment data
    let mut modified = data[..segment_size - FOOTER_SIZE].to_vec();
    modified.extend_from_slice(&make_footer_bytes(&footer));

    let result = SegmentReader::open(modified);
    assert!(result.is_err());
    let err = result.unwrap_err();
    assert!(err.is_corruption());
    assert!(
        matches!(err, ReaderError::InvalidOffset { section: "fst", .. }),
        "Expected InvalidOffset for fst, got: {:?}",
        err
    );
}

#[test]
fn case_04_footer_bloom_offset_beyond_segment() {
    let data = build_segment(100, 512);
    let segment_size = data.len();

    let mut footer = read_footer(&data);
    footer.bloom_offset = segment_size as u64 + 500;

    let mut modified = data[..segment_size - FOOTER_SIZE].to_vec();
    modified.extend_from_slice(&make_footer_bytes(&footer));

    let result = SegmentReader::open(modified);
    assert!(result.is_err());
    let err = result.unwrap_err();
    assert!(err.is_corruption());
    assert!(
        matches!(
            err,
            ReaderError::InvalidOffset {
                section: "bloom",
                ..
            }
        ),
        "Expected InvalidOffset for bloom, got: {:?}",
        err
    );
}

#[test]
fn case_04_footer_data_blocks_length_exceeds_segment() {
    let data = build_segment(100, 512);
    let segment_size = data.len();

    let mut footer = read_footer(&data);
    footer.data_blocks_length = segment_size as u64 * 10; // 10x the segment size

    let mut modified = data[..segment_size - FOOTER_SIZE].to_vec();
    modified.extend_from_slice(&make_footer_bytes(&footer));

    let result = SegmentReader::open(modified);
    assert!(result.is_err());
    let err = result.unwrap_err();
    assert!(err.is_corruption());
    assert!(
        matches!(
            err,
            ReaderError::InvalidOffset {
                section: "data_blocks",
                ..
            }
        ),
        "Expected InvalidOffset for data_blocks, got: {:?}",
        err
    );
}

#[test]
fn case_04_footer_offset_overflow_u64() {
    let data = build_segment(10, 512);
    let segment_size = data.len();

    // Set fst_offset + fst_length to overflow u64
    let mut footer = read_footer(&data);
    footer.fst_offset = u64::MAX - 10;
    footer.fst_length = 100; // Would overflow

    let mut modified = data[..segment_size - FOOTER_SIZE].to_vec();
    modified.extend_from_slice(&make_footer_bytes(&footer));

    let result = SegmentReader::open(modified);
    assert!(result.is_err());
    let err = result.unwrap_err();
    assert!(err.is_corruption());
}

// Footer CRC corrupt

#[test]
fn case_05_footer_crc_corrupt() {
    let mut data = build_segment(100, 512);

    // Corrupt a byte in the footer region (not the CRC itself, but the data
    // that the CRC covers)
    let footer_start = data.len() - FOOTER_SIZE;
    data[footer_start + 10] ^= 0xFF;

    let result = SegmentReader::open(data);
    assert!(result.is_err());
    let err = result.unwrap_err();
    assert!(err.is_corruption());
    assert!(
        matches!(
            err,
            ReaderError::Format(FormatError::ChecksumMismatch { .. })
        ),
        "Expected Format(ChecksumMismatch), got: {:?}",
        err
    );
}

// Truncated file (< 64 bytes)

#[test]
fn case_06_truncated_file() {
    let data = vec![0u8; 32]; // Less than FOOTER_SIZE (64)
    let result = SegmentReader::open(data);
    assert!(result.is_err());
    let err = result.unwrap_err();
    assert!(err.is_corruption());
    assert!(
        matches!(
            err,
            ReaderError::Format(FormatError::TooSmall { .. })
        ),
        "Expected Format(TooSmall), got: {:?}",
        err
    );
}

// Infinite varint in block (continuation bits set indefinitely)

#[test]
fn case_07_infinite_varint_in_block() {
    // Build a block-sized buffer with valid CRC but malicious varint content.
    // Layout: entries_data + restart_offsets + num_restarts + CRC
    //
    // We'll craft a minimal "block" with:
    // - One restart offset at position 0
    // - Entry data that is all 0xFF (infinite varint continuation)

    let entry_data = vec![0xFFu8; 20]; // All continuation bits set
    let restart_offset: u32 = 0;
    let num_restarts: u32 = 1;

    let mut block = Vec::new();
    block.extend_from_slice(&entry_data);
    block.extend_from_slice(&restart_offset.to_le_bytes());
    block.extend_from_slice(&num_restarts.to_le_bytes());

    // Compute and append CRC
    let crc = crc32fast::hash(&block);
    block.extend_from_slice(&crc.to_le_bytes());

    let result = pique::block::BlockReader::open(&block);
    assert!(result.is_ok(), "Block should open (CRC is valid)");
    let reader = result.unwrap();

    // Attempting to read should hit the varint overflow guard
    let get_result = reader.get(b"anything");
    assert!(get_result.is_err());
    let err = get_result.unwrap_err();
    assert!(
        matches!(
            err,
            BlockError::InvalidVarint
                | BlockError::UnexpectedEof
                | BlockError::CorruptedEntry
        ),
        "Expected varint/corruption error, got: {:?}",
        err
    );
}

// Varint declares length > remaining data

#[test]
fn case_08_varint_impossible_length() {
    // Craft a block where the entry's value_len varint says 999999 but only
    // a few bytes remain.

    // Entry: shared_prefix=0, unshared_key_len=3, value_len=999999
    // Then 3 bytes of key, then only 2 bytes of "value" (way less than 999999)
    let mut entry_data = Vec::new();
    // shared_prefix_len = 0 (one-byte varint)
    entry_data.push(0x00);
    // unshared_key_len = 3 (one-byte varint)
    entry_data.push(0x03);
    // value_len = 999999 — encode as multi-byte varint
    // 999999 = 0xF423F
    // LEB128: 0x3F | 0x80, 0x48 | 0x80, 0x3D, stop → [0xBF, 0xC8, 0x3D]
    let val_len: u32 = 999999;
    let mut v = val_len;
    loop {
        if v < 0x80 {
            entry_data.push(v as u8);
            break;
        }
        entry_data.push((v as u8 & 0x7F) | 0x80);
        v >>= 7;
    }
    // 3 bytes of key
    entry_data.extend_from_slice(b"abc");
    // Only 2 bytes of value (instead of 999999)
    entry_data.extend_from_slice(b"xy");

    // Build a valid block structure around this corrupt entry
    let restart_offset: u32 = 0;
    let num_restarts: u32 = 1;

    let mut block = Vec::new();
    block.extend_from_slice(&entry_data);
    block.extend_from_slice(&restart_offset.to_le_bytes());
    block.extend_from_slice(&num_restarts.to_le_bytes());
    let crc = crc32fast::hash(&block);
    block.extend_from_slice(&crc.to_le_bytes());

    let reader = pique::block::BlockReader::open(&block).unwrap();
    let result = reader.get(b"abc");
    assert!(result.is_err());
    let err = result.unwrap_err();
    assert!(
        matches!(err, BlockError::CorruptedEntry),
        "Expected CorruptedEntry, got: {:?}",
        err
    );
}

// Valid footer, corrupt FST in tail buffer

#[test]
fn case_09_corrupt_fst_in_tail() {
    let data = build_segment(1000, 4096);
    let segment_size = data.len() as u64;
    let footer = read_footer(&data);

    // Simulate a tail read (last 256KB or whole segment)
    let tail_size = (256 * 1024).min(data.len());
    let mut tail = data[data.len() - tail_size..].to_vec();

    // Corrupt the FST bytes within the tail. Zero out the entire FST region
    // to reliably trigger an FST parse error.
    let tail_start_offset = segment_size - tail_size as u64;
    let fst_local_start = (footer.fst_offset - tail_start_offset) as usize;
    let fst_local_end = fst_local_start + footer.fst_length as usize;

    // Zero out entire FST region in tail
    for i in fst_local_start..fst_local_end {
        tail[i] = 0x00;
    }

    let result = SegmentReader::open_from_tail(&tail, segment_size);
    assert!(result.is_err());
    let err = result.unwrap_err();
    assert!(err.is_corruption());
    assert!(
        matches!(err, ReaderError::FstError(_)),
        "Expected FstError, got: {:?}",
        err
    );
}

// Segment replaced mid-read (TOCTOU) — block CRC catches it

#[test]
fn case_10_toctou_block_crc_mismatch() {
    // Simulate: reader has metadata from segment V1, but reads a block from
    // segment V2 (different data at the same offset).
    let data_v1 = build_segment(100, 512);
    let _data_v2 = build_segment(100, 512);
    let _footer = read_footer(&data_v1);

    // Open reader with V1 data
    let reader = SegmentReader::open(data_v1.clone()).unwrap();

    // Now simulate reading a block from V2 at the same offset.
    // We can't easily do this with SegmentReader (it's in-memory), but we CAN
    // verify the invariant: if block bytes don't match CRC, it errors.
    // Build a "wrong" block by taking bytes from data_v2 at V1's block offsets.
    //
    // The simpler test: corrupt a single data block in a reader's buffer to
    // simulate the race — the CRC check catches it.
    let mut data = data_v1;
    // Corrupt the data block region after opening (simulates TOCTOU)
    data[10] ^= 0xAB;

    // Re-open with corrupted data to verify CRC catches it
    let reader_corrupted = SegmentReader::open(data).unwrap();
    let result = reader_corrupted.get(b"key_000000");

    // Either the bloom rejects (unlikely for a real key) or the block CRC fails
    match result {
        Err(e) => {
            assert!(e.is_corruption());
        }
        Ok(None) => {
            // Bloom filter might reject due to corrupt bloom data — acceptable
        }
        Ok(Some(_)) => {
            // If somehow the corruption was in unused block bytes, this could pass
            // but it's extremely unlikely with the corruption we introduced
        }
    }

    // Verify the clean reader still works (control)
    let _ = reader; // reader from V1 is fine
}

// Zero-length segment

#[test]
fn case_11_zero_length_segment() {
    let data: Vec<u8> = Vec::new();
    let result = SegmentReader::open(data);
    assert!(result.is_err());
    let err = result.unwrap_err();
    assert!(err.is_corruption());
    assert!(
        matches!(
            err,
            ReaderError::Format(FormatError::TooSmall { .. })
        ),
        "Expected Format(TooSmall), got: {:?}",
        err
    );
}

// Valid footer, bloom_length = 0 (no bloom in segment)

#[test]
fn case_12_no_bloom_filter() {
    let data = build_segment_no_bloom(100);
    let footer = read_footer(&data);
    assert_eq!(footer.bloom_length, 0, "Bloom should be absent");

    let reader = SegmentReader::open(data).unwrap();

    // All existing keys should be found (bloom doesn't reject anything)
    for i in 0..100 {
        let key = format!("key_{:06}", i);
        let result = reader.get(key.as_bytes()).unwrap();
        assert!(
            result.is_some(),
            "Key {} should be found with no bloom filter",
            key
        );
    }

    // Non-existent keys should return None (FST + block search says no)
    let result = reader.get(b"nonexistent_key").unwrap();
    assert_eq!(result, None);

    // might_contain should always return true (no bloom = conservative)
    assert!(reader.might_contain(b"anything_at_all"));
}

// Footer says 0 keys, reader queries

#[test]
fn case_13_zero_key_count_in_footer() {
    // Build a valid segment but patch the footer's key_count to 0.
    // The FST is still present (it was built with real data), so lookups
    // should still work or return None gracefully.
    let data = build_segment(10, 512);
    let segment_size = data.len();

    let mut footer = read_footer(&data);
    footer.key_count = 0;

    let mut modified = data[..segment_size - FOOTER_SIZE].to_vec();
    modified.extend_from_slice(&make_footer_bytes(&footer));

    // Opening should succeed (key_count is metadata, not structural)
    let reader = SegmentReader::open(modified).unwrap();
    assert_eq!(reader.key_count(), 0);

    // Queries should not panic. They may or may not find keys (the FST/blocks
    // still have data, key_count is just metadata).
    let _ = reader.get(b"key_000000");
    let _ = reader.get(b"nonexistent");
}

// is_corruption() classification tests

#[test]
fn is_corruption_true_for_all_corruption_variants() {
    let cases: Vec<ReaderError> = vec![
        ReaderError::Format(FormatError::ChecksumMismatch {
            stored: 0,
            computed: 1,
        }),
        ReaderError::Format(FormatError::InvalidMagic),
        ReaderError::Format(FormatError::TooSmall { size: 10 }),
        ReaderError::Format(FormatError::UnsupportedVersion(99)),
        ReaderError::Block(BlockError::ChecksumMismatch),
        ReaderError::Block(BlockError::BlockTooSmall),
        ReaderError::Block(BlockError::InvalidVarint),
        ReaderError::Block(BlockError::CorruptedEntry),
        ReaderError::Block(BlockError::UnexpectedEof),
        ReaderError::FstError("something".to_string()),
        ReaderError::InvalidBlockOffset(999),
        ReaderError::InvalidOffset {
            section: "fst",
            offset: 100,
            length: 200,
            segment_size: 50,
        },
    ];

    for err in &cases {
        assert!(
            err.is_corruption(),
            "Expected is_corruption()=true for: {:?}",
            err
        );
        assert!(
            !err.is_transient(),
            "Expected is_transient()=false for: {:?}",
            err
        );
    }
}

#[test]
fn is_corruption_false_for_storage_errors() {
    let err = ReaderError::Storage(StorageError::NotFound("test".to_string()));
    assert!(!err.is_corruption());
    assert!(err.is_transient());
}

#[test]
fn is_corruption_false_for_tail_too_small() {
    let err = ReaderError::TailTooSmall {
        needed: 1000,
        got: 500,
    };
    // TailTooSmall is not corruption — it means the tail budget was too small,
    // which is a configuration issue, not data corruption.
    assert!(!err.is_corruption());
    assert!(!err.is_transient());
}
