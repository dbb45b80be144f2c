use pique::values::entity_location::EntityLocation;
use pique::values::location_set::LocationSet;

#[test]
fn round_trip_single() {
    let set = LocationSet::single(EntityLocation {
        file_key: "data/part-001.parquet".into(),
        row_group: 3,
        row_offset: 42,
    });

    let encoded = set.encode();
    let decoded = LocationSet::decode(&encoded).unwrap();
    assert_eq!(set, decoded);
}

#[test]
fn round_trip_multiple() {
    let set = LocationSet {
        locations: vec![
            EntityLocation {
                file_key: "data/2024-01/part-000.parquet".into(),
                row_group: 0,
                row_offset: 100,
            },
            EntityLocation {
                file_key: "data/2024-01/part-001.parquet".into(),
                row_group: 2,
                row_offset: 55,
            },
            EntityLocation {
                file_key: "data/2024-02/part-000.parquet".into(),
                row_group: 1,
                row_offset: 0,
            },
        ],
    };

    let encoded = set.encode();
    let decoded = LocationSet::decode(&encoded).unwrap();
    assert_eq!(set, decoded);
    assert_eq!(decoded.len(), 3);
}

#[test]
fn empty_set() {
    let set = LocationSet::new();
    assert!(set.is_empty());

    let encoded = set.encode();
    assert_eq!(encoded.len(), 4); // just the count
    let decoded = LocationSet::decode(&encoded).unwrap();
    assert_eq!(decoded.len(), 0);
}

#[test]
fn location_set_rejects_truncated() {
    assert!(LocationSet::decode(&[0x02, 0x00, 0x00, 0x00, 0x05]).is_err());
}

#[test]
fn location_set_compact_size() {
    // 3 locations with ~30-byte file keys
    let set = LocationSet {
        locations: (0..3)
            .map(|i| EntityLocation {
                file_key: format!("data/part-{:03}.parquet", i),
                row_group: i,
                row_offset: i * 100,
            })
            .collect(),
    };

    let encoded = set.encode();
    // 4 (count) + 3 * (2 + 22 + 4 + 4) = 4 + 96 = 100 bytes
    let per_entry = 2 + "data/part-000.parquet".len() + 8;
    let expected = 4 + 3 * per_entry;
    assert_eq!(encoded.len(), expected);
}
