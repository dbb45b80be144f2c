//! Requests to the storage, and the texts of errors.

use pique::block::BlockError;
use pique::format::FormatError;
use pique::reader::ReaderError;
use pique::storage::{check_tail, range_header, suffix_header, StorageError};
use pique::values::entity_location::ValueDecodeError;

#[test]
fn s3_integration_placeholder() {
    let err = ReaderError::Storage(StorageError::S3("timeout".to_string()));
    assert!(err.is_transient());
    assert!(!err.is_corruption());
}

#[test]
fn range_requests() {
    assert_eq!(range_header(0, 1), "bytes=0-0");
    assert_eq!(range_header(70, 1024), "bytes=70-1023");
    assert_eq!(range_header(0, u64::MAX), "bytes=0-18446744073709551614");
    assert_eq!(suffix_header(262144), "bytes=-262144");
}

#[test]
fn tails_longer_than_the_file() {
    assert!(check_tail(64, 64).is_ok());
    match check_tail(65, 64) {
        Err(StorageError::Io(e)) => {
            assert_eq!(e, "Requested tail 65 bytes but file is only 64 bytes")
        }
        other => panic!("{:?}", other),
    }
}

#[test]
fn texts_of_errors() {
    let texts = [
        (
            ReaderError::Format(FormatError::InvalidMagic),
            "Format error: Invalid magic bytes \u{2014} not an s3-index segment",
        ),
        (
            ReaderError::Format(FormatError::UnsupportedVersion(210)),
            "Format error: Unsupported format version: 210 (expected 1)",
        ),
        (
            ReaderError::Format(FormatError::ChecksumMismatch { stored: 0, computed: 0xdeadbeef }),
            "Format error: Footer checksum mismatch: stored=0x0, computed=0xdeadbeef",
        ),
        (
            ReaderError::Format(FormatError::TooSmall { size: 9 }),
            "Format error: Segment too small: 9 bytes (minimum is 64)",
        ),
        (
            ReaderError::Block(BlockError::BlockTooSmall),
            "Block error: Block too small to contain valid data",
        ),
        (ReaderError::Block(BlockError::ChecksumMismatch), "Block error: Block checksum mismatch"),
        (ReaderError::Block(BlockError::InvalidVarint), "Block error: Invalid varint encoding"),
        (ReaderError::Block(BlockError::UnexpectedEof), "Block error: Unexpected end of data"),
        (ReaderError::Block(BlockError::CorruptedEntry), "Block error: Corrupted block entry"),
        (ReaderError::FstError("x".to_string()), "FST error: x"),
        (ReaderError::InvalidBlockOffset(10), "Invalid block offset: 10"),
        (
            ReaderError::InvalidOffset {
                section: "fst",
                offset: 100,
                length: 20,
                segment_size: 64,
            },
            "Invalid offset of section fst: 100 with length 20 in a segment of 64 bytes",
        ),
        (
            ReaderError::TailTooSmall { needed: 1000, got: 64 },
            "Tail read too small: needed 1000 bytes but only read 64",
        ),
        (
            ReaderError::Storage(StorageError::NotFound("p".to_string())),
            "Storage error: Object not found: p",
        ),
        (ReaderError::Storage(StorageError::Io("e".to_string())), "Storage error: I/O error: e"),
        (ReaderError::Storage(StorageError::S3("e".to_string())), "Storage error: S3 error: e"),
    ];
    for (err, text) in texts {
        assert_eq!(err.message(), text);
    }
    assert_eq!(ValueDecodeError::TooShort.message(), "Data too short for value type");
    assert_eq!(ValueDecodeError::InvalidUtf8.message(), "Invalid UTF-8 in string field");
    assert_eq!(ValueDecodeError::InvalidFormat.message(), "Invalid format");
}
