use pique::reader::SegmentReader;
use pique::secondary::SecondaryIndexWriter;
use pique::values::entity_location::EntityLocation;
use pique::values::location_set::LocationSet;
use pique::writer::WriterError;

#[test]
fn single_key_multiple_locations() {
    let mut writer = SecondaryIndexWriter::new();

    writer.add_location(
        b"subject_001",
        EntityLocation {
            file_key: "part-000.parquet".into(),
            row_group: 0,
            row_offset: 10,
        },
    );
    writer.add_location(
        b"subject_001",
        EntityLocation {
            file_key: "part-003.parquet".into(),
            row_group: 1,
            row_offset: 55,
        },
    );

    assert_eq!(writer.key_count(), 1);
    assert_eq!(writer.total_locations(), 2);

    let output = writer.finish().unwrap();
    let reader = SegmentReader::open(output.data).unwrap();

    let value = reader.get(b"subject_001").unwrap().unwrap();
    let set = LocationSet::decode(&value).unwrap();
    assert_eq!(set.len(), 2);
    assert_eq!(set.locations[0].file_key, "part-000.parquet");
    assert_eq!(set.locations[1].file_key, "part-003.parquet");
}

#[test]
fn multiple_keys_out_of_order() {
    let mut writer = SecondaryIndexWriter::new();

    // Add keys out of order — writer handles sorting
    writer.add_location(
        b"zzz",
        EntityLocation {
            file_key: "f.parquet".into(),
            row_group: 0,
            row_offset: 0,
        },
    );
    writer.add_location(
        b"aaa",
        EntityLocation {
            file_key: "f.parquet".into(),
            row_group: 1,
            row_offset: 0,
        },
    );
    writer.add_location(
        b"mmm",
        EntityLocation {
            file_key: "f.parquet".into(),
            row_group: 2,
            row_offset: 0,
        },
    );

    assert_eq!(writer.key_count(), 3);

    let output = writer.finish().unwrap();
    let reader = SegmentReader::open(output.data).unwrap();

    // All keys findable
    assert!(reader.get(b"aaa").unwrap().is_some());
    assert!(reader.get(b"mmm").unwrap().is_some());
    assert!(reader.get(b"zzz").unwrap().is_some());
    assert!(reader.get(b"bbb").unwrap().is_none());
}

#[test]
fn interleaved_adds_accumulate() {
    let mut writer = SecondaryIndexWriter::new();

    // Interleave adds for different keys
    writer.add_location(
        b"key_a",
        EntityLocation {
            file_key: "f1.parquet".into(),
            row_group: 0,
            row_offset: 0,
        },
    );
    writer.add_location(
        b"key_b",
        EntityLocation {
            file_key: "f1.parquet".into(),
            row_group: 0,
            row_offset: 1,
        },
    );
    writer.add_location(
        b"key_a",
        EntityLocation {
            file_key: "f2.parquet".into(),
            row_group: 0,
            row_offset: 0,
        },
    );
    writer.add_location(
        b"key_b",
        EntityLocation {
            file_key: "f2.parquet".into(),
            row_group: 1,
            row_offset: 5,
        },
    );

    let output = writer.finish().unwrap();
    let reader = SegmentReader::open(output.data).unwrap();

    let val_a = reader.get(b"key_a").unwrap().unwrap();
    let set_a = LocationSet::decode(&val_a).unwrap();
    assert_eq!(set_a.len(), 2);

    let val_b = reader.get(b"key_b").unwrap().unwrap();
    let set_b = LocationSet::decode(&val_b).unwrap();
    assert_eq!(set_b.len(), 2);
}

#[test]
fn empty_writer_returns_error() {
    let writer = SecondaryIndexWriter::new();
    assert!(writer.finish().is_err());
}

#[test]
fn bloom_rejects_missing_keys() {
    let mut writer = SecondaryIndexWriter::new();
    for i in 0..100 {
        writer.add_location(
            format!("key_{:04}", i).as_bytes(),
            EntityLocation {
                file_key: "f.parquet".into(),
                row_group: 0,
                row_offset: i,
            },
        );
    }

    let output = writer.finish().unwrap();
    let reader = SegmentReader::open(output.data).unwrap();

    // Bloom should reject most non-existent keys
    let mut rejections = 0;
    for i in 200..300 {
        if !reader.might_contain(format!("key_{:04}", i).as_bytes()) {
            rejections += 1;
        }
    }
    assert!(rejections > 95);
}
