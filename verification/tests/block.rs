use pique::block::{BlockError, BlockReader, TrackedBlockBuilder};
use pique::varint::{decode_varint, encode_varint};

#[test]
fn varint_round_trip() {
    for val in [0, 1, 127, 128, 255, 256, 16383, 16384, u32::MAX] {
        let mut buf = Vec::new();
        encode_varint(val, &mut buf);
        let (decoded, consumed) = decode_varint(&buf).unwrap();
        assert_eq!(decoded, val);
        assert_eq!(consumed, buf.len());
    }
}

#[test]
fn single_entry_block() {
    let mut builder = TrackedBlockBuilder::new(4096, 16);
    assert!(builder.add(b"hello", b"world"));
    let (bytes, first, last) = builder.finish();

    assert_eq!(first, b"hello");
    assert_eq!(last, b"hello");

    let reader = BlockReader::open(&bytes).unwrap();
    assert_eq!(reader.get(b"hello").unwrap(), Some(b"world".as_slice()));
    assert_eq!(reader.get(b"other").unwrap(), None);
}

#[test]
fn multiple_entries_with_prefix_compression() {
    let mut builder = TrackedBlockBuilder::new(4096, 4);

    let entries = vec![
        (b"prefix_aaa".to_vec(), b"val1".to_vec()),
        (b"prefix_aab".to_vec(), b"val2".to_vec()),
        (b"prefix_abc".to_vec(), b"val3".to_vec()),
        (b"prefix_abd".to_vec(), b"val4".to_vec()),
        (b"prefix_xyz".to_vec(), b"val5".to_vec()),
        (b"zzz_other".to_vec(), b"val6".to_vec()),
    ];

    for (k, v) in &entries {
        assert!(builder.add(k, v));
    }

    let (bytes, first, last) = builder.finish();
    assert_eq!(first.as_slice(), b"prefix_aaa");
    assert_eq!(last.as_slice(), b"zzz_other");

    let reader = BlockReader::open(&bytes).unwrap();

    // Verify all entries
    for (k, v) in &entries {
        let result = reader.get(k).unwrap();
        assert_eq!(result, Some(v.as_slice()), "Failed for key {:?}", k);
    }

    // Verify missing keys
    assert_eq!(reader.get(b"prefix_aac").unwrap(), None);
    assert_eq!(reader.get(b"nonexistent").unwrap(), None);
}

#[test]
fn block_iterator() {
    let mut builder = TrackedBlockBuilder::new(4096, 4);

    let entries: Vec<(&[u8], &[u8])> = vec![
        (b"alpha", b"1"),
        (b"beta", b"2"),
        (b"gamma", b"3"),
        (b"delta", b"4"),
        (b"epsilon", b"5"),
    ];

    // Insert in sorted order
    let mut sorted = entries.clone();
    sorted.sort_by_key(|(k, _)| k.to_vec());

    for (k, v) in &sorted {
        assert!(builder.add(k, v));
    }

    let (bytes, _, _) = builder.finish();
    let reader = BlockReader::open(&bytes).unwrap();

    let mut collected: Vec<(Vec<u8>, Vec<u8>)> = Vec::new();
    let mut it = reader.iter();
    while let Some(r) = it.next() {
        let (k, v) = r.unwrap();
        collected.push((k, v.to_vec()));
    }

    assert_eq!(collected.len(), sorted.len());
    for ((k, v), (ek, ev)) in collected.iter().zip(sorted.iter()) {
        assert_eq!(k.as_slice(), *ek);
        assert_eq!(v.as_slice(), *ev);
    }
}

#[test]
fn block_rejects_overflow() {
    // Very small block — only fits a few entries
    let mut builder = TrackedBlockBuilder::new(64, 4);

    assert!(builder.add(b"key1", b"value1")); // First entry always accepted
    // Keep adding until rejected
    let mut count = 1;
    for i in 2..100 {
        let key = format!("key{:04}", i);
        let val = format!("value{:04}", i);
        if !builder.add(key.as_bytes(), val.as_bytes()) {
            break;
        }
        count += 1;
    }

    assert!(count >= 1); // At least the first entry
    assert!(count < 10); // Block is tiny, shouldn't fit many

    let (bytes, _, _) = builder.finish();
    assert!(bytes.len() <= 100); // Shouldn't be wildly over the target
}

#[test]
fn checksum_detects_corruption() {
    let mut builder = TrackedBlockBuilder::new(4096, 16);
    builder.add(b"key", b"value");
    let (mut bytes, _, _) = builder.finish();

    // Corrupt a byte
    bytes[0] ^= 0xFF;

    let result = BlockReader::open(&bytes);
    assert!(matches!(result, Err(BlockError::ChecksumMismatch)));
}

#[test]
fn restart_points_enable_binary_search() {
    // Use restart_interval=2 to create many restart points
    let mut builder = TrackedBlockBuilder::new(16 * 1024, 2);

    // Insert 100 entries with diverse prefixes
    for i in 0..100u32 {
        let key = format!("entity_{:06}", i);
        let val = format!("loc_{}", i);
        assert!(builder.add(key.as_bytes(), val.as_bytes()));
    }

    let (bytes, _, _) = builder.finish();
    let reader = BlockReader::open(&bytes).unwrap();

    // Look up various keys
    assert_eq!(
        reader.get(b"entity_000000").unwrap(),
        Some(b"loc_0".as_slice())
    );
    assert_eq!(
        reader.get(b"entity_000050").unwrap(),
        Some(b"loc_50".as_slice())
    );
    assert_eq!(
        reader.get(b"entity_000099").unwrap(),
        Some(b"loc_99".as_slice())
    );
    assert_eq!(reader.get(b"entity_000100").unwrap(), None);
    assert_eq!(reader.get(b"aaa_before_all").unwrap(), None);
    assert_eq!(reader.get(b"zzz_after_all").unwrap(), None);
}
