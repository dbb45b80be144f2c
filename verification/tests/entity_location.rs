use pique::values::entity_location::{EntityLocation, ValueDecodeError};

#[test]
fn entity_location_round_trip() {
    let loc = EntityLocation {
        file_key: "data/org123/entities/repo=owner%2Frepo/ref=default/kind=function/part-00042.parquet".to_string(),
        row_group: 7,
        row_offset: 142,
    };

    let encoded = loc.encode();
    let decoded = EntityLocation::decode(&encoded).unwrap();
    assert_eq!(loc, decoded);
}

#[test]
fn entity_location_compact_size() {
    let loc = EntityLocation {
        file_key: "data/org/entities/part-00001.parquet".to_string(),
        row_group: 0,
        row_offset: 0,
    };

    let encoded = loc.encode();
    // 2 (len) + 39 (key) + 4 (rg) + 4 (offset) = 49 bytes
    assert_eq!(encoded.len(), 2 + loc.file_key.len() + 8);
}

#[test]
fn entity_location_rejects_truncated() {
    let result = EntityLocation::decode(&[0x05, 0x00, b'h', b'e']);
    assert!(matches!(result, Err(ValueDecodeError::TooShort)));
}
