//! Exact bytes of blocks, footers and values.

use pique::block::{BlockBuilder, BlockError, BlockReader};
use pique::format::{Footer, FormatError, FOOTER_SIZE};
use pique::values::adjacency::{AdjacencyList, Edge, RelKind};
use pique::values::entity_location::{EntityLocation, ValueDecodeError};
use pique::values::location_set::LocationSet;
use pique::values::path_entries::{EntityKind, PathEntries, PathEntry};
use pique::varint::{decode_varint, encode_varint};

fn with_crc(mut body: Vec<u8>) -> Vec<u8> {
    let crc = crc32fast::hash(&body);
    body.extend_from_slice(&crc.to_le_bytes());
    body
}

fn location(file_key: &str, row_group: u32, row_offset: u32) -> EntityLocation {
    EntityLocation { file_key: file_key.to_string(), row_group, row_offset }
}

#[test]
fn varint_bytes() {
    let mut buf = Vec::new();
    assert_eq!(encode_varint(0, &mut buf), 1);
    assert_eq!(encode_varint(300, &mut buf), 2);
    assert_eq!(encode_varint(u32::MAX, &mut buf), 5);
    assert_eq!(buf, vec![0x00, 0xAC, 0x02, 0xFF, 0xFF, 0xFF, 0xFF, 0x0F]);
    assert_eq!(decode_varint(&buf[1..]).unwrap(), (300, 2));
    assert!(matches!(decode_varint(&[]), Err(BlockError::UnexpectedEof)));
    assert!(matches!(decode_varint(&[0x80]), Err(BlockError::UnexpectedEof)));
    assert!(matches!(decode_varint(&[0xFF; 6]), Err(BlockError::InvalidVarint)));
}

#[test]
fn block_bytes_of_two_entries() {
    let mut builder = BlockBuilder::new(4096, 16);
    assert!(builder.is_empty());
    assert_eq!(builder.first_key(), None);
    assert!(builder.add(b"ab", b"x"));
    assert!(builder.add(b"acd", b""));
    assert_eq!(builder.entry_count(), 2);
    assert_eq!(builder.first_key(), Some(&b"ab"[..]));
    let expected = with_crc(vec![
        0, 2, 1, b'a', b'b', b'x', // "ab" in full
        1, 2, 0, b'c', b'd', // "acd" after a shared "a"
        0, 0, 0, 0, // restart offset
        1, 0, 0, 0, // restart count
    ]);
    assert_eq!(builder.finish(), expected);
}

#[test]
fn restart_interval_of_zero_is_one() {
    let mut builder = BlockBuilder::new(4096, 0);
    assert!(builder.add(b"ab", b""));
    assert!(builder.add(b"ac", b""));
    let expected = with_crc(vec![
        0, 2, 0, b'a', b'b', 0, 2, 0, b'a', b'c', // both in full
        0, 0, 0, 0, 5, 0, 0, 0, 2, 0, 0, 0,
    ]);
    assert_eq!(builder.finish(), expected);
}

#[test]
fn damaged_blocks_are_refused() {
    assert!(matches!(BlockReader::open(&[0; 7]), Err(BlockError::BlockTooSmall)));
    assert!(matches!(BlockReader::open(&[1; 12]), Err(BlockError::ChecksumMismatch)));
    // More restart points than the block has room for
    let block = with_crc(vec![0, 0, 0, 0, 9, 0, 0, 0]);
    assert!(matches!(BlockReader::open(&block), Err(BlockError::BlockTooSmall)));
    // No restart point at all
    let block = with_crc(vec![0, 0, 0, 0]);
    let reader = BlockReader::open(&block).unwrap();
    assert!(matches!(reader.get(b"a"), Err(BlockError::CorruptedEntry)));
    assert!(reader.iter().next().is_none());
    // A restart point outside the entries
    let block = with_crc(vec![77, 0, 0, 0, 1, 0, 0, 0]);
    let reader = BlockReader::open(&block).unwrap();
    assert!(matches!(reader.get(b"a"), Err(BlockError::CorruptedEntry)));
}

#[test]
fn footer_bytes_and_errors() {
    let footer = Footer {
        format_version: 1,
        data_blocks_offset: 0,
        data_blocks_length: 0x0102,
        bloom_offset: 0x0102,
        bloom_length: 3,
        fst_offset: 0x0105,
        fst_length: 4,
        key_count: 5,
        checksum: 0,
    };
    let bytes = footer.to_bytes();
    assert_eq!(bytes[0..8], [b'S', b'3', b'I', b'X', 1, 0, 0, 0]);
    assert_eq!(bytes[16..24], [2, 1, 0, 0, 0, 0, 0, 0]);
    assert_eq!(bytes[56..60], [5, 0, 0, 0]);
    assert_eq!(bytes[60..64], crc32fast::hash(&bytes[..60]).to_le_bytes());
    let read = Footer::from_bytes(&bytes).unwrap();
    assert_eq!(read, Footer { checksum: crc32fast::hash(&bytes[..60]), ..footer });

    let mut other: [u8; FOOTER_SIZE] = bytes;
    other[4] = 9;
    assert!(matches!(Footer::from_bytes(&other), Err(FormatError::UnsupportedVersion(9))));
    let mut other = bytes;
    other[30] ^= 1;
    let stored = crc32fast::hash(&bytes[..60]);
    let computed = crc32fast::hash(&other[..60]);
    assert_eq!(
        Footer::from_bytes(&other).unwrap_err(),
        FormatError::ChecksumMismatch { stored, computed }
    );
}

#[test]
fn location_bytes() {
    let encoded = location("a\u{e9}", 258, 1).encode();
    assert_eq!(encoded, vec![3, 0, b'a', 0xC3, 0xA9, 2, 1, 0, 0, 1, 0, 0, 0]);
    // Bytes behind the location do not matter
    let mut longer = encoded.clone();
    longer.push(7);
    assert_eq!(EntityLocation::decode(&longer).unwrap(), location("a\u{e9}", 258, 1));
    // The length is stored in 16 bits
    let long = location(&"k".repeat(65536 + 3), 0, 0).encode();
    assert_eq!(long[..4], [3, 0, b'k', b'k']);
}

#[test]
fn values_that_are_not_utf8_are_refused() {
    let mut encoded = location("ab", 0, 0).encode();
    encoded[2] = 0xFF;
    assert!(matches!(EntityLocation::decode(&encoded), Err(ValueDecodeError::InvalidUtf8)));
    assert!(matches!(EntityLocation::decode(&[1]), Err(ValueDecodeError::TooShort)));
    let mut set = LocationSet::single(location("ab", 0, 0)).encode();
    set[6] = 0xFF;
    assert!(matches!(LocationSet::decode(&set), Err(ValueDecodeError::InvalidUtf8)));
}

#[test]
fn location_set_bytes() {
    let mut set = LocationSet::default();
    set.push(location("f", 1, 2));
    assert_eq!(set.encode(), vec![1, 0, 0, 0, 1, 0, b'f', 1, 0, 0, 0, 2, 0, 0, 0]);
    // A count that the data cannot hold
    assert!(matches!(
        LocationSet::decode(&[0xFF, 0xFF, 0xFF, 0xFF]),
        Err(ValueDecodeError::TooShort)
    ));
}

#[test]
fn adjacency_bytes() {
    let list = AdjacencyList {
        outgoing: vec![Edge { entity_id: "x".into(), rel_kind: RelKind::Custom("up".into()) }],
        incoming: vec![Edge { entity_id: "y".into(), rel_kind: RelKind::TypeOf }],
    };
    assert_eq!(list.edge_count(), 2);
    let encoded = list.encode();
    assert_eq!(
        encoded,
        vec![1, 0, 1, 0, 1, 0, b'x', 255, 2, 0, b'u', b'p', 1, 0, b'y', 6]
    );
    assert_eq!(AdjacencyList::decode(&encoded).unwrap(), list);
    let mut unknown = encoded.clone();
    unknown[15] = 7;
    assert!(matches!(AdjacencyList::decode(&unknown), Err(ValueDecodeError::InvalidFormat)));
    assert!(matches!(
        AdjacencyList::decode(&encoded[..11]),
        Err(ValueDecodeError::TooShort)
    ));
    for kind in [
        RelKind::Calls,
        RelKind::Imports,
        RelKind::Extends,
        RelKind::Implements,
        RelKind::Contains,
        RelKind::Uses,
    ] {
        let list = AdjacencyList {
            outgoing: vec![],
            incoming: vec![Edge { entity_id: "z".into(), rel_kind: kind }],
        };
        assert_eq!(AdjacencyList::decode(&list.encode()).unwrap(), list);
    }
}

#[test]
fn path_entries_bytes() {
    let list = PathEntries {
        entries: vec![PathEntry { entity_id: "e".into(), kind: EntityKind::Variable }],
    };
    let encoded = list.encode();
    assert_eq!(encoded, vec![1, 0, 1, 0, b'e', 10]);
    // A byte that no kind has
    let other = PathEntries::decode(&[1, 0, 1, 0, b'e', 99]).unwrap();
    assert_eq!(other.entries[0].kind, EntityKind::Other);
    assert_eq!(EntityKind::Other.to_byte(), 255);
    assert!(matches!(PathEntries::decode(&encoded[..5]), Err(ValueDecodeError::TooShort)));
}

#[test]
fn values_with_bytes_behind_them_or_cut_short() {
    let edge = |id: &str, rel_kind: RelKind| Edge { entity_id: id.to_string(), rel_kind };
    let list = AdjacencyList {
        outgoing: vec![edge("a", RelKind::Calls), edge("bc", RelKind::Custom("own".to_string()))],
        incoming: vec![edge("", RelKind::Uses), edge("é", RelKind::Custom(String::new()))],
    };
    let set = LocationSet { locations: vec![location("f", 1, 2), location("", 3, 4)] };
    let entries = PathEntries {
        entries: vec![
            PathEntry { entity_id: "x".to_string(), kind: EntityKind::Trait },
            PathEntry { entity_id: String::new(), kind: EntityKind::Other },
        ],
    };
    let one = location("file", 5, 6);

    let behind = |mut bytes: Vec<u8>| {
        bytes.extend_from_slice(&[0xFF, 0, 7]);
        bytes
    };
    assert_eq!(AdjacencyList::decode(&behind(list.encode())), Ok(list.clone()));
    assert_eq!(LocationSet::decode(&behind(set.encode())), Ok(set.clone()));
    assert_eq!(PathEntries::decode(&behind(entries.encode())), Ok(entries.clone()));
    assert_eq!(EntityLocation::decode(&behind(one.encode())), Ok(one.clone()));

    let short = ValueDecodeError::TooShort;
    for n in 0..list.encode().len() {
        assert_eq!(AdjacencyList::decode(&list.encode()[..n]), Err(short));
    }
    for n in 0..set.encode().len() {
        assert_eq!(LocationSet::decode(&set.encode()[..n]), Err(short));
    }
    for n in 0..entries.encode().len() {
        assert_eq!(PathEntries::decode(&entries.encode()[..n]), Err(short));
    }
    for n in 0..one.encode().len() {
        assert_eq!(EntityLocation::decode(&one.encode()[..n]), Err(short));
    }
}
