//! Segments read in parts: metadata from the end, then single blocks.

use pique::block::BlockError;
use pique::directory::Directory;
use pique::format::{Footer, FormatError, FOOTER_SIZE, FORMAT_VERSION};
use pique::reader::{finish_and_open, search_block, tail_read_size, ReaderError, SegmentReader};
use pique::segment_model::LookupPlan;
use pique::writer::{SegmentWriter, SegmentWriterOptions, WriterError};

fn build(count: u32, block_size: u32, enable_bloom: bool) -> Vec<u8> {
    let mut writer = SegmentWriter::new(SegmentWriterOptions {
        block_size,
        restart_interval: 4,
        enable_bloom,
    });
    for i in 0..count {
        let key = format!("key_{:06}", i);
        let value = format!("value_{:06}", i);
        writer.add(key.as_bytes(), value.as_bytes()).unwrap();
    }
    writer.finish().unwrap().data
}

fn footer_of(data: &[u8]) -> Footer {
    let bytes: &[u8; FOOTER_SIZE] = data[data.len() - FOOTER_SIZE..].try_into().unwrap();
    Footer::from_bytes(bytes).unwrap()
}

#[test]
fn two_step_lookup_agrees_with_whole_segment() {
    let data = build(300, 512, true);
    let whole = SegmentReader::open(data.clone()).unwrap();
    let from = footer_of(&data).bloom_offset as usize;
    let meta = SegmentReader::open_from_tail(&data[from..], data.len() as u64).unwrap();
    assert_eq!(meta.key_count(), 300);
    assert_eq!(meta.metadata_size(), data.len() - from);
    for i in 0..400 {
        let key = format!("key_{:06}", i);
        let found = match meta.plan_lookup(key.as_bytes()) {
            LookupPlan::Absent => None,
            LookupPlan::Block { start, end } => {
                search_block(&data[start as usize..end as usize], key.as_bytes()).unwrap()
            }
            LookupPlan::Invalid { offset } => panic!("no block at {}", offset),
        };
        assert_eq!(found, whole.get(key.as_bytes()).unwrap());
        assert_eq!(found.is_some(), i < 300);
    }
    assert_eq!(meta.block_offset_for_key(b"zzz"), None);
    assert_eq!(meta.block_byte_range(u64::MAX), None);
}

#[test]
fn short_tail_says_how_much_is_needed() {
    let data = build(300, 512, true);
    let size = data.len() as u64;
    let tail = &data[data.len() - FOOTER_SIZE..];
    let (needed, got) = match SegmentReader::open_from_tail(tail, size) {
        Err(ReaderError::TailTooSmall { needed, got }) => (needed, got),
        other => panic!("{:?}", other),
    };
    assert_eq!(got, FOOTER_SIZE);
    assert_eq!(needed as u64, size - footer_of(&data).bloom_offset);
    let tail = &data[data.len() - needed..];
    assert_eq!(SegmentReader::open_from_tail(tail, size).unwrap().key_count(), 300);
    assert!(matches!(
        SegmentReader::open_from_tail(&[0; 10], size),
        Err(ReaderError::Format(FormatError::TooSmall { size: 10 }))
    ));
}

#[test]
fn tail_of_a_damaged_footer() {
    let data = build(50, 512, true);
    let size = data.len() as u64;
    let mut footer = footer_of(&data);
    footer.bloom_length = size;
    let mut modified = data[..data.len() - FOOTER_SIZE].to_vec();
    modified.extend_from_slice(&footer.to_bytes());
    assert!(matches!(
        SegmentReader::open_from_tail(&modified, size),
        Err(ReaderError::InvalidOffset { section: "bloom", .. })
    ));
    // The directory before the filter, and before the bytes that were read
    let mut footer = footer_of(&data);
    footer.fst_offset = 0;
    footer.fst_length = 1;
    let mut modified = data[..data.len() - FOOTER_SIZE].to_vec();
    modified.extend_from_slice(&footer.to_bytes());
    let from = footer.bloom_offset as usize;
    match SegmentReader::open_from_tail(&modified[from..], size) {
        Err(ReaderError::TailTooSmall { needed, got }) => {
            assert_eq!(needed as u64, size);
            assert_eq!(got, modified.len() - from);
        }
        other => panic!("{:?}", other),
    }
}

#[test]
fn tail_read_sizes() {
    assert_eq!(tail_read_size(None, 1_000_000), 262_144);
    assert_eq!(tail_read_size(None, 1000), 1000);
    assert_eq!(tail_read_size(Some(64), 1000), 64);
}

#[test]
fn iteration_gives_all_entries_in_order() {
    let data = build(300, 256, false);
    let reader = SegmentReader::open(data.clone()).unwrap();
    assert_eq!(reader.size_bytes(), data.len() as u64);
    let entries = reader.iter().unwrap();
    assert_eq!(entries.len(), 300);
    for (i, (key, value)) in entries.iter().enumerate() {
        assert_eq!(key, format!("key_{:06}", i).as_bytes());
        assert_eq!(value, format!("value_{:06}", i).as_bytes());
    }
}

#[test]
fn iteration_reports_a_damaged_block() {
    let mut data = build(300, 256, true);
    data[3] ^= 0xFF;
    let reader = SegmentReader::open(data).unwrap();
    assert!(reader.iter().unwrap_err().is_corruption());
}

#[test]
fn directory_that_points_behind_the_data() {
    let directory = Directory::build(&vec![(b"m".to_vec(), 999)]).unwrap();
    let footer = Footer {
        format_version: FORMAT_VERSION,
        data_blocks_offset: 0,
        data_blocks_length: 8,
        bloom_offset: 8,
        bloom_length: 0,
        fst_offset: 8,
        fst_length: directory.len() as u64,
        key_count: 1,
        checksum: 0,
    };
    let mut data = vec![0u8; 8];
    data.extend_from_slice(&directory);
    data.extend_from_slice(&footer.to_bytes());
    let reader = SegmentReader::open(data).unwrap();
    assert!(matches!(reader.get(b"a"), Err(ReaderError::InvalidBlockOffset(999))));
    assert!(matches!(reader.iter(), Err(ReaderError::InvalidBlockOffset(999))));
    assert_eq!(reader.get(b"z").unwrap(), None);
}

#[test]
fn blocks_that_run_backwards() {
    let directory = Directory::build(&vec![(b"a".to_vec(), 6), (b"b".to_vec(), 2)]).unwrap();
    let footer = Footer {
        format_version: FORMAT_VERSION,
        data_blocks_offset: 0,
        data_blocks_length: 8,
        bloom_offset: 8,
        bloom_length: 0,
        fst_offset: 8,
        fst_length: directory.len() as u64,
        key_count: 1,
        checksum: 0,
    };
    let mut data = vec![0u8; 8];
    data.extend_from_slice(&directory);
    data.extend_from_slice(&footer.to_bytes());
    let meta = SegmentReader::open_from_tail(&data, data.len() as u64).unwrap();
    assert_eq!(meta.plan_lookup(b"a"), LookupPlan::Invalid { offset: 6 });
    assert_eq!(meta.block_byte_range(6), Some((6, 2)));
    assert_eq!(meta.block_byte_range(2), Some((2, 8)));
    assert_eq!(meta.block_byte_range(8), None);
    let reader = SegmentReader::open(data).unwrap();
    assert!(matches!(reader.get(b"a"), Err(ReaderError::InvalidBlockOffset(6))));
}

#[test]
fn directories() {
    let slots = vec![(b"b".to_vec(), 0), (b"d".to_vec(), 70)];
    let data = Directory::build(&slots).unwrap();
    let directory = Directory::open(data.clone()).unwrap();
    assert_eq!(directory.entries(), slots);
    assert_eq!(directory.size(), data.len());
    assert_eq!(directory.at_least(b"a"), Some(0));
    assert_eq!(directory.at_least(b"b"), Some(0));
    assert_eq!(directory.at_least(b"c"), Some(70));
    assert_eq!(directory.at_least(b"e"), None);
    let unsorted = vec![(b"d".to_vec(), 0), (b"b".to_vec(), 70)];
    assert_eq!(Directory::build(&unsorted).unwrap_err(), "FST error");
    let twice = vec![(b"d".to_vec(), 0), (b"d".to_vec(), 70)];
    assert_eq!(Directory::build(&twice).unwrap_err(), "FST error");
    assert_eq!(Directory::open(vec![1, 2, 3]).unwrap_err(), "FST error");
    // One flipped bit anywhere is noticed
    for i in 0..data.len() {
        let mut damaged = data.clone();
        damaged[i] ^= 1;
        assert!(Directory::open(damaged).is_err());
    }
}

#[test]
fn bytes_that_are_no_directory() {
    for len in [0, 35, 36, 37, 100] {
        assert_eq!(Directory::open(vec![0; len]).unwrap_err(), "FST error");
        assert_eq!(Directory::open(vec![0xFF; len]).unwrap_err(), "FST error");
    }
    let data = Directory::build(&vec![(b"b".to_vec(), 0)]).unwrap();
    // The version comes first, and only one is read
    for version in [0u8, 1, 2, 4] {
        let mut other = data.clone();
        other[0] = version;
        assert!(Directory::open(other).is_err());
    }
    assert!(Directory::open(data[1..].to_vec()).is_err());
    let empty = Directory::build(&vec![]).unwrap();
    let none = Directory::open(empty).unwrap();
    assert!(none.entries().is_empty());
    assert_eq!(none.at_least(b""), None);
}

/// A directory in the format of an earlier version: another version number, and no checksum.
fn in_earlier_format(data: &[u8], version: u8) -> Vec<u8> {
    let mut earlier = data[..data.len() - 4].to_vec();
    earlier[0] = version;
    earlier
}

#[test]
fn directories_of_earlier_versions() {
    let few = vec![(b"b".to_vec(), 0), (b"bc".to_vec(), 40), (b"d".to_vec(), 70)];
    let data = Directory::build(&few).unwrap();
    for version in [1, 2] {
        let directory = Directory::open(in_earlier_format(&data, version)).unwrap();
        assert_eq!(directory.entries(), few);
        assert_eq!(directory.at_least(b"ba"), Some(40));
        assert_eq!(directory.at_least(b"e"), None);
        assert_eq!(directory.size(), data.len() - 4);
    }
    // More branches than a node of the first version indexes
    let many: Vec<(Vec<u8>, u64)> = (0..200u8).map(|b| (vec![b], 1000 + b as u64)).collect();
    let data = Directory::build(&many).unwrap();
    let directory = Directory::open(in_earlier_format(&data, 2)).unwrap();
    assert_eq!(directory.entries(), many);
    assert_eq!(directory.at_least(&[77]), Some(1077));
    assert_eq!(directory.at_least(&[77, 0]), Some(1078));
    // A segment with such a directory is read like any other
    let segment = build(60, 128, false);
    let footer = footer_of(&segment);
    let blocks = footer.data_blocks_length as usize;
    let end = segment.len() - FOOTER_SIZE;
    let earlier = in_earlier_format(&segment[footer.fst_offset as usize..end], 2);
    let mut other = segment[..blocks].to_vec();
    other.extend_from_slice(&earlier);
    other.extend_from_slice(&Footer { fst_length: earlier.len() as u64, ..footer }.to_bytes());
    let reader = SegmentReader::open(other).unwrap();
    assert_eq!(reader.get(b"key_000033").unwrap(), Some(b"value_000033".to_vec()));
    assert_eq!(reader.iter().unwrap().len(), 60);
}

/// The remainder of a division by a polynomial, bit by bit.
fn crc(data: &[u8], poly: u32) -> u32 {
    let mut state = 0xFFFF_FFFFu32;
    for byte in data {
        state ^= *byte as u32;
        for _ in 0..8 {
            state = if state & 1 == 1 { (state >> 1) ^ poly } else { state >> 1 };
        }
    }
    !state
}

#[test]
fn checksums() {
    let last = |bytes: &[u8]| u32::from_le_bytes(bytes[bytes.len() - 4..].try_into().unwrap());
    assert_eq!(crc(b"123456789", 0xEDB8_8320), 0xCBF4_3926);
    assert_eq!(crc(b"123456789", 0x82F6_3B78), 0xE306_9283);
    for count in [1, 60] {
        let data = build(count, 4096, true);
        let footer = footer_of(&data);
        let block = &data[..footer.data_blocks_length as usize];
        assert_eq!(last(block), crc(&block[..block.len() - 4], 0xEDB8_8320));
        let end = data.len() - 4;
        assert_eq!(last(&data), crc(&data[end - 60..end], 0xEDB8_8320));
        let directory = &data[footer.fst_offset as usize..data.len() - FOOTER_SIZE];
        let sum = crc(&directory[..directory.len() - 4], 0x82F6_3B78);
        assert_eq!(last(directory), sum.rotate_right(15).wrapping_add(0xA282_EAD8));
    }
}

#[test]
fn one_changed_byte_is_noticed() {
    let data = build(40, 128, true);
    let footer = footer_of(&data);
    let whole = SegmentReader::open(data.clone()).unwrap();
    let plain = SegmentReader::open_from_tail(&data, data.len() as u64).unwrap();
    let from = footer.bloom_offset as usize;
    let keys: Vec<String> = (0..40).map(|i| format!("key_{:06}", i)).collect();
    for i in 0..data.len() {
        for change in [1u8, 2, 0x80, 0xFF] {
            let mut other = data.clone();
            other[i] ^= change;
            let tail = SegmentReader::open_from_tail(&other[from..], other.len() as u64);
            let opened = SegmentReader::open(other);
            if (i as u64) < footer.bloom_offset {
                assert!(tail.is_ok());
                let reader = opened.unwrap();
                assert!(matches!(
                    reader.iter(),
                    Err(ReaderError::Block(BlockError::ChecksumMismatch))
                ));
                for key in &keys {
                    let hit = match plain.plan_lookup(key.as_bytes()) {
                        LookupPlan::Block { start, end } => {
                            start <= i as u64 && (i as u64) < end
                        }
                        other => panic!("{:?}", other),
                    };
                    match reader.get(key.as_bytes()) {
                        Err(ReaderError::Block(BlockError::ChecksumMismatch)) => assert!(hit),
                        Ok(value) => {
                            assert!(!hit);
                            assert_eq!(value, whole.get(key.as_bytes()).unwrap());
                        }
                        Err(e) => panic!("{:?}", e),
                    }
                }
            } else if (i as u64) < footer.fst_offset {
                assert!(tail.is_ok());
                assert!(opened.is_ok());
            } else if i < data.len() - FOOTER_SIZE {
                assert!(matches!(tail, Err(ReaderError::FstError(_))));
                assert!(matches!(opened, Err(ReaderError::FstError(_))));
            } else {
                let at = i - (data.len() - FOOTER_SIZE);
                let expected = |r: &ReaderError| match r {
                    ReaderError::Format(FormatError::InvalidMagic) => at < 4,
                    ReaderError::Format(FormatError::UnsupportedVersion(_)) => at == 4 || at == 5,
                    ReaderError::Format(FormatError::ChecksumMismatch { .. }) => at >= 6,
                    _ => false,
                };
                assert!(expected(&tail.unwrap_err()));
                assert!(expected(&opened.unwrap_err()));
            }
        }
    }
}

#[test]
fn every_tail_of_a_finished_segment() {
    let data = build(60, 128, true);
    let whole = SegmentReader::open(data.clone()).unwrap();
    let size = data.len();
    let needed = size - footer_of(&data).bloom_offset as usize;
    for len in FOOTER_SIZE..size + 1 {
        match SegmentReader::open_from_tail(&data[size - len..], size as u64) {
            Ok(meta) => {
                assert!(len >= needed);
                assert_eq!(meta.footer, footer_of(&data));
                assert_eq!(meta.key_count(), whole.key_count());
                assert_eq!(meta.metadata_size(), needed);
            }
            Err(ReaderError::TailTooSmall { needed: n, got }) => {
                assert!(len < needed);
                assert_eq!((n, got), (needed, len));
            }
            Err(e) => panic!("{:?}", e),
        }
    }
}

#[test]
fn lookups_read_one_whole_block_or_nothing() {
    let data = build(100, 256, false);
    let end_of_data = footer_of(&data).data_blocks_length;
    let meta = SegmentReader::open_from_tail(&data, data.len() as u64).unwrap();
    let slots = meta.fst.entries();
    let starts: Vec<u64> = slots.iter().map(|s| s.1).collect();
    assert!(starts.len() > 2);
    for i in 0..100 {
        let key = format!("key_{:06}", i);
        match meta.plan_lookup(key.as_bytes()) {
            LookupPlan::Block { start, end } => {
                let at = starts.iter().position(|s| *s == start).unwrap();
                let next = if at + 1 < starts.len() { starts[at + 1] } else { end_of_data };
                assert_eq!(end, next);
            }
            other => panic!("{:?}", other),
        }
    }
    // Without a filter a key after all keys still costs no read
    assert_eq!(meta.plan_lookup(b"key_000100"), LookupPlan::Absent);
    assert_eq!(meta.plan_lookup(b"zzz"), LookupPlan::Absent);
}

#[test]
fn finished_and_opened() {
    let mut writer = SegmentWriter::new(SegmentWriterOptions::default());
    assert!(matches!(finish_and_open(writer), Err(WriterError::EmptySegment)));
    writer = SegmentWriter::new(SegmentWriterOptions::default());
    writer.add(b"a", b"1").unwrap();
    writer.add(b"b", b"2").unwrap();
    let finished = finish_and_open(writer).unwrap();
    assert_eq!(finished.output.meta.key_count, 2);
    assert_eq!(finished.output.meta.size_bytes as usize, finished.output.data.len());
    assert_eq!(finished.reader.get(b"b").unwrap(), Some(b"2".to_vec()));
    assert_eq!(finished.reader.get(b"c").unwrap(), None);
    assert_eq!(finished.metadata.footer, footer_of(&finished.output.data));
    assert_eq!(finished.metadata.plan_lookup(b"c"), LookupPlan::Absent);
}

#[test]
fn refused_keys_leave_the_writer_as_it_was() {
    let mut writer = SegmentWriter::new(SegmentWriterOptions::default());
    let mut plain = SegmentWriter::new(SegmentWriterOptions::default());
    for key in [b"b", b"d"] {
        writer.add(key, b"v").unwrap();
        plain.add(key, b"v").unwrap();
        assert!(writer.add(key, b"w").is_err());
        assert!(writer.add(b"a", b"w").is_err());
    }
    assert_eq!(writer.finish().unwrap().data, plain.finish().unwrap().data);
}

#[test]
fn writer_errors_and_their_texts() {
    let mut writer = SegmentWriter::new(SegmentWriterOptions::default());
    writer.add(b"b", b"1").unwrap();
    let err = writer.add(b"a", b"2").unwrap_err();
    assert_eq!(err.message(), "Keys must be added in strictly ascending sorted order");
    let err = writer.add(b"b", b"2").unwrap_err();
    assert_eq!(err.message(), "Duplicate key detected");
    let err = SegmentWriter::new(SegmentWriterOptions::default()).finish().unwrap_err();
    assert_eq!(err.message(), "Cannot finish an empty segment (no entries added)");
    let err = WriterError::FstBuildError("x".to_string());
    assert_eq!(err.message(), "FST build error: x");
    // A refused entry leaves no trace
    let reader = SegmentReader::open(writer.finish().unwrap().data).unwrap();
    assert_eq!(reader.iter().unwrap(), vec![(b"b".to_vec(), b"1".to_vec())]);
}

#[test]
fn empty_keys_and_values() {
    let mut writer = SegmentWriter::new(SegmentWriterOptions::default());
    writer.add(b"", b"root").unwrap();
    writer.add(b"\x00", b"").unwrap();
    let output = writer.finish().unwrap();
    assert_eq!(output.meta.min_key, b"");
    assert_eq!(output.meta.generation, 0);
    assert_eq!(output.meta.path, "");
    let reader = SegmentReader::open(output.data).unwrap();
    assert_eq!(reader.get(b"").unwrap(), Some(b"root".to_vec()));
    assert_eq!(reader.get(b"\x00").unwrap(), Some(vec![]));
    assert_eq!(reader.get(b"\x00\x00").unwrap(), None);
}

#[test]
fn directories_with_the_empty_key_and_prefixes() {
    let slots = vec![(b"".to_vec(), 5), (b"a".to_vec(), 6), (b"ab".to_vec(), 7)];
    let directory = Directory::open(Directory::build(&slots).unwrap()).unwrap();
    assert_eq!(directory.entries(), slots);
    assert_eq!(directory.at_least(b""), Some(5));
    assert_eq!(directory.at_least(b"\x00"), Some(6));
    assert_eq!(directory.at_least(b"a\x00"), Some(7));
    assert_eq!(directory.at_least(b"ab"), Some(7));
    assert_eq!(directory.at_least(b"ab\x00"), None);
    let mut writer = SegmentWriter::new(SegmentWriterOptions::default());
    writer.add(b"", b"only").unwrap();
    let reader = SegmentReader::open(writer.finish().unwrap().data).unwrap();
    assert_eq!(reader.get(b"").unwrap(), Some(b"only".to_vec()));
    assert_eq!(reader.get(b"a").unwrap(), None);
    let none = Directory::open(Directory::build(&vec![]).unwrap()).unwrap();
    assert_eq!(none.at_least(b""), None);
    assert!(none.entries().is_empty());
}
