# Pique

Immutable key-value index segments for object storage, verified with Verus.

A segment maps byte-string keys to byte-string values. It is one run of bytes:

```text
[data blocks] [membership filter] [directory] [footer: 64 bytes]
```

A reader takes footer, directory and filter from the end of a segment with one read; each lookup
then reads one block.

## Layout

- `src/` is the library. Verus proves the contract of every function but the fourteen wrappers
  named below.
  - `block`, `varint`: sorted entries with prefix-compressed keys. `block_model` says what the bytes
    mean, `block_proof` that reading gives back what was written.
  - `format`, `bloom`, `directory`: footer, membership filter, directory of block offsets.
  - `writer`, `reader`: segments, with `segment_model` and `segment_proof` in the same roles.
  - `layered`: a base segment with deltas over it, and merging them.
  - `partitioned`, `secondary`, `stats`: indexes over several segments, several locations per key,
    pruning by column statistics.
  - `values`: encodings of values.
  - `bytes`, `order`, `sorted_map`, `text`, `numerals`, `checksum`, `storage`: what these rest on.
- `app/` is ordinary Rust around it: storage backends, readers over them, manifests as JSON.
- `tests/` runs the library.

## What is trusted

Fourteen wrappers have contracts that Verus believes. `checksum` calls CRC-32 (`crc32fast`) and
`hash_key` XXH3 (`xxhash-rust`); `build_xor8` and `check_xor8` call the xor filter (`xorf`);
`new_builder`, `insert_slot`, `finish_builder`, `open_map`, `verify_map`, `map_bytes`, `stream_map`
and `seek_map` call the finite state transducer (`fst`); `utf8_text` and `lossy_text` call
`std::str::from_utf8` and `String::from_utf8_lossy`. Each says what is claimed of the function
behind it.

## What is proved

- A lookup in a finished segment gives what was written under the key, and nothing for other keys;
  iterating gives all entries in order (`SegmentWriter::finish`).
- Every end of a finished segment that reaches back to its filter gives the metadata, and every
  shorter one says how many bytes do (`law_tail_of_written`). A lookup by these reads nothing for a
  key after all keys and otherwise at most one whole block, and gives the same as one in the whole
  segment (`law_stored_lookup`).
- A merge gives the same answers as the layers it was made of (`law_merge_is_transparent`).
- Encoded values decode to what they were, whatever follows them, and cut short they are refused
  (`law_location_round_trip`, `law_location_cut` and their like).
- A finished segment of which one byte was changed is refused when it is opened, if the byte is in
  the directory or the footer; if it is in the data blocks, lookups that read its block and
  iteration say that the checksum does not match (`law_damaged_segment`, `law_damaged_lookup`,
  `law_damaged_iteration`). The filter has no checksum.
- No verified function panics where its `requires` hold. For opening a segment these leave out one
  kind of bytes: a directory that no builder made and that is accepted all the same, be it forged
  together with its checksum or, in the versions of the transducer's format that have no checksum,
  damaged (`segment_genuine`). All other bytes are answered with a value or an error. Below the
  wrappers this rests on what they claim.
