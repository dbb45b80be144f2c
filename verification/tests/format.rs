use pique::format::{Footer, FormatError, FOOTER_SIZE, FORMAT_VERSION};

#[test]
fn footer_round_trip() {
    let footer = Footer {
        format_version: FORMAT_VERSION,
        data_blocks_offset: 0,
        data_blocks_length: 1024 * 1024,
        bloom_offset: 1024 * 1024,
        bloom_length: 4096,
        fst_offset: 1024 * 1024 + 4096,
        fst_length: 32768,
        key_count: 50000,
        checksum: 0, // Will be computed by to_bytes
    };

    let bytes = footer.to_bytes();
    let decoded = Footer::from_bytes(&bytes).unwrap();

    assert_eq!(decoded.format_version, FORMAT_VERSION);
    assert_eq!(decoded.data_blocks_length, 1024 * 1024);
    assert_eq!(decoded.bloom_offset, 1024 * 1024);
    assert_eq!(decoded.bloom_length, 4096);
    assert_eq!(decoded.fst_offset, 1024 * 1024 + 4096);
    assert_eq!(decoded.fst_length, 32768);
    assert_eq!(decoded.key_count, 50000);
}

#[test]
fn footer_detects_bad_magic() {
    let mut bytes = [0u8; FOOTER_SIZE];
    bytes[0..4].copy_from_slice(b"NOPE");
    let result = Footer::from_bytes(&bytes);
    assert!(matches!(result, Err(FormatError::InvalidMagic)));
}

#[test]
fn footer_detects_checksum_corruption() {
    let footer = Footer {
        format_version: FORMAT_VERSION,
        data_blocks_offset: 0,
        data_blocks_length: 100,
        bloom_offset: 100,
        bloom_length: 50,
        fst_offset: 150,
        fst_length: 200,
        key_count: 10,
        checksum: 0,
    };

    let mut bytes = footer.to_bytes();
    // Corrupt one byte in the data region
    bytes[10] ^= 0xFF;

    let result = Footer::from_bytes(&bytes);
    assert!(matches!(result, Err(FormatError::ChecksumMismatch { .. })));
}
