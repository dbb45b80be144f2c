//! What the bytes of a block mean.

use vstd::prelude::*;
use crate::block::BlockError;
use crate::bytes::{le_bytes, le_value};
use crate::checksum::crc32;
use crate::order::{lex_less, shared_prefix, Pair};
use crate::varint::{lemma_parse_varint_bounds, parse_varint, varint};

verus! {

// ---------------------------------------------------------------------------
// Writing
// ---------------------------------------------------------------------------

/// A length as the format stores it: its 32 low-order bits.
pub open spec fn len32(n: nat) -> nat {
    n % 0x1_0000_0000
}

/// The bytes of one entry that takes `shared` leading bytes of its key from the entry before it.
pub open spec fn entry_bytes(shared: nat, key: Seq<u8>, value: Seq<u8>) -> Seq<u8> {
    varint(len32(shared)) + varint(len32((key.len() - shared) as nat)) + varint(len32(value.len()))
        + key.skip(shared as int) + value
}

/// How many bytes entry `i` takes from the key before it. Every `interval`-th entry is a restart
/// point and stores its key in full.
pub open spec fn shared_at(entries: Seq<Pair>, interval: nat, i: int) -> nat {
    if i % (interval as int) == 0 {
        0
    } else {
        shared_prefix(entries[i - 1].0, entries[i].0)
    }
}

/// The bytes of a run of entries.
pub open spec fn entries_bytes(entries: Seq<Pair>, interval: nat) -> Seq<u8>
    decreases entries.len(),
{
    if entries.len() == 0 {
        Seq::empty()
    } else {
        entries_bytes(entries.drop_last(), interval) + entry_bytes(
            shared_at(entries, interval, entries.len() - 1),
            entries.last().0,
            entries.last().1,
        )
    }
}

/// Where entry `i` begins.
pub open spec fn entry_offset(entries: Seq<Pair>, interval: nat, i: int) -> nat {
    entries_bytes(entries.take(i), interval).len()
}

/// The restart points among `n` entries: entry 0, and every further multiple of `interval`.
pub open spec fn restart_indices(n: nat, interval: nat) -> Seq<nat>
    decreases n,
{
    if n <= 1 {
        seq![0nat]
    } else if (n - 1) % (interval as int) == 0 {
        restart_indices((n - 1) as nat, interval).push((n - 1) as nat)
    } else {
        restart_indices((n - 1) as nat, interval)
    }
}

/// The offsets of the restart points.
pub open spec fn restart_offsets(entries: Seq<Pair>, interval: nat) -> Seq<u32> {
    restart_indices(entries.len(), interval).map_values(
        |i: nat| len32(entry_offset(entries, interval, i as int)) as u32,
    )
}

/// Offsets as stored: four bytes each.
pub open spec fn offsets_bytes(offsets: Seq<u32>) -> Seq<u8>
    decreases offsets.len(),
{
    if offsets.len() == 0 {
        Seq::empty()
    } else {
        offsets_bytes(offsets.drop_last()) + le_bytes(offsets.last() as nat, 4)
    }
}

/// A block without its checksum: the entries, the restart offsets and their count.
pub open spec fn block_body(entries: Seq<Pair>, interval: nat) -> Seq<u8> {
    entries_bytes(entries, interval) + offsets_bytes(restart_offsets(entries, interval)) + le_bytes(
        len32(restart_offsets(entries, interval).len()),
        4,
    )
}

/// A finished block.
pub open spec fn block_bytes(entries: Seq<Pair>, interval: nat) -> Seq<u8> {
    block_body(entries, interval) + le_bytes(crc32(block_body(entries, interval)) as nat, 4)
}

/// The size a block has so far: entries, restart offsets, their count and the checksum.
pub open spec fn block_size(entries: Seq<Pair>, interval: nat) -> nat {
    entries_bytes(entries, interval).len() + restart_offsets(entries, interval).len() * 4 + 8
}

/// Whether a block of `entries` takes one more: an empty block takes any entry, others only if
/// the estimated size stays within `limit`.
pub open spec fn has_room(
    entries: Seq<Pair>,
    interval: nat,
    limit: nat,
    key: Seq<u8>,
    value: Seq<u8>,
) -> bool {
    entries.len() == 0 || block_size(entries, interval) + 5 + key.len() + value.len() <= limit
}

// ---------------------------------------------------------------------------
// Reading
// ---------------------------------------------------------------------------

/// A block taken apart.
#[verifier::ext_equal]
pub struct BlockView {
    /// The whole block.
    pub data: Seq<u8>,
    /// The stored restart offsets.
    pub restarts: Seq<u32>,
    /// Where the entries end.
    pub entries_end: nat,
}

/// Takes a block apart, or says why it is not one.
pub open spec fn open_block(data: Seq<u8>) -> Result<BlockView, BlockError> {
    let n = data.len() as int;
    if n < 8 {
        Err(BlockError::BlockTooSmall)
    } else if le_value(data.subrange(n - 4, n)) != crc32(data.take(n - 4)) {
        Err(BlockError::ChecksumMismatch)
    } else {
        let count = le_value(data.subrange(n - 8, n - 4));
        let end = n - 8 - 4 * count;
        if end < 0 {
            Err(BlockError::BlockTooSmall)
        } else {
            Ok(
                BlockView {
                    data,
                    restarts: Seq::new(
                        count,
                        |i: int| le_value(data.subrange(end + 4 * i, end + 4 * i + 4)) as u32,
                    ),
                    entries_end: end as nat,
                },
            )
        }
    }
}

/// The three lengths of the entry at `pos`, with the position that reading them reached.
pub open spec fn read_lengths(data: Seq<u8>, pos: nat) -> (
    nat,
    Result<(u32, u32, u32), BlockError>,
) {
    match parse_varint(data.skip(pos as int)) {
        Err(e) => (pos, Err(e)),
        Ok((shared, used1)) => {
            let pos1 = pos + used1;
            match parse_varint(data.skip(pos1 as int)) {
                Err(e) => (pos1, Err(e)),
                Ok((unshared, used2)) => {
                    let pos2 = pos1 + used2;
                    match parse_varint(data.skip(pos2 as int)) {
                        Err(e) => (pos2, Err(e)),
                        Ok((value_len, used3)) => (
                            pos2 + used3,
                            Ok((shared, unshared, value_len)),
                        ),
                    }
                },
            }
        },
    }
}

/// The first `n` bytes of `s`, or all of it if it is shorter.
pub open spec fn truncated(s: Seq<u8>, n: nat) -> Seq<u8> {
    if n <= s.len() {
        s.take(n as int)
    } else {
        s
    }
}

/// The result of reading one entry.
#[verifier::ext_equal]
pub struct EntryStep {
    /// The position reached.
    pub pos: nat,
    /// The key, as far as it was put together.
    pub key: Seq<u8>,
    /// The value, or why the entry cannot be read.
    pub outcome: Result<Seq<u8>, BlockError>,
}

/// Reads the entry at `pos`, after an entry with the key `key`.
pub open spec fn read_step(data: Seq<u8>, entries_end: nat, pos: nat, key: Seq<u8>) -> EntryStep {
    let (at, lengths) = read_lengths(data, pos);
    match lengths {
        Err(e) => EntryStep { pos: at, key, outcome: Err(e) },
        Ok((shared, unshared, value_len)) => {
            let kept = truncated(key, shared as nat);
            let key_end = at + unshared as nat;
            let value_end = key_end + value_len as nat;
            if key_end > entries_end {
                EntryStep { pos: at, key: kept, outcome: Err(BlockError::CorruptedEntry) }
            } else if value_end > entries_end {
                EntryStep {
                    pos: key_end,
                    key: kept + data.subrange(at as int, key_end as int),
                    outcome: Err(BlockError::CorruptedEntry),
                }
            } else {
                EntryStep {
                    pos: value_end,
                    key: kept + data.subrange(at as int, key_end as int),
                    outcome: Ok(data.subrange(key_end as int, value_end as int)),
                }
            }
        },
    }
}

/// Reading an entry goes forward by at least three bytes.
pub proof fn lemma_step_advances(data: Seq<u8>, entries_end: nat, pos: nat, key: Seq<u8>)
    requires
        pos <= data.len(),
        entries_end <= data.len(),
    ensures
        pos <= read_lengths(data, pos).0 <= data.len(),
        pos <= read_step(data, entries_end, pos, key).pos <= data.len(),
        read_step(data, entries_end, pos, key).outcome is Ok ==> pos + 3 <= read_step(
            data,
            entries_end,
            pos,
            key,
        ).pos <= entries_end,
{
    lemma_parse_varint_bounds(data.skip(pos as int));
    if let Ok((_, used1)) = parse_varint(data.skip(pos as int)) {
        lemma_parse_varint_bounds(data.skip((pos + used1) as int));
        if let Ok((_, used2)) = parse_varint(data.skip((pos + used1) as int)) {
            lemma_parse_varint_bounds(data.skip((pos + used1 + used2) as int));
        }
    }
}

/// Looks for `target` from `pos` up to `stop`, giving up at the first key after it.
pub open spec fn scan(
    data: Seq<u8>,
    entries_end: nat,
    pos: nat,
    stop: nat,
    key: Seq<u8>,
    target: Seq<u8>,
) -> Result<Option<Seq<u8>>, BlockError>
    decreases data.len() - pos,
    when pos <= data.len() && entries_end <= data.len()
{
    if pos >= stop {
        Ok(None)
    } else {
        proof {
            lemma_step_advances(data, entries_end, pos, key);
        }
        let step = read_step(data, entries_end, pos, key);
        match step.outcome {
            Err(e) => Err(e),
            Ok(value) => if step.key == target {
                Ok(Some(value))
            } else if lex_less(target, step.key) {
                Ok(None)
            } else {
                scan(data, entries_end, step.pos, stop, step.key, target)
            },
        }
    }
}

/// The full key stored at restart point `i`.
pub open spec fn restart_key(b: BlockView, i: int) -> Result<Seq<u8>, BlockError> {
    let pos = b.restarts[i] as nat;
    if pos >= b.entries_end {
        Err(BlockError::CorruptedEntry)
    } else {
        let (at, lengths) = read_lengths(b.data, pos);
        match lengths {
            Err(e) => Err(e),
            Ok((shared, unshared, _)) => if shared != 0 || at + unshared as nat > b.entries_end {
                Err(BlockError::CorruptedEntry)
            } else {
                Ok(b.data.subrange(at as int, (at + unshared as nat) as int))
            },
        }
    }
}

/// Binary search among the restart points `lo..hi` for the last one whose key is not after
/// `target`, or the first one if there is none.
pub open spec fn search(b: BlockView, target: Seq<u8>, lo: int, hi: int) -> Result<
    int,
    BlockError,
>
    decreases hi - lo,
{
    if lo >= hi {
        Ok(if lo > 0 { lo - 1 } else { 0 })
    } else {
        let mid = lo + (hi - lo) / 2;
        match restart_key(b, mid) {
            Err(e) => Err(e),
            Ok(key) => if key == target {
                Ok(mid)
            } else if lex_less(key, target) {
                search(b, target, mid + 1, hi)
            } else {
                search(b, target, lo, mid)
            },
        }
    }
}

/// Looks `target` up: finds its restart point, then scans to the next one.
pub open spec fn block_get(b: BlockView, target: Seq<u8>) -> Result<Option<Seq<u8>>, BlockError> {
    match search(b, target, 0, b.restarts.len() as int) {
        Err(e) => Err(e),
        Ok(i) => if i >= b.restarts.len() || b.restarts[i] >= b.entries_end {
            Err(BlockError::CorruptedEntry)
        } else {
            let stop = if i + 1 < b.restarts.len() {
                b.restarts[i + 1] as nat
            } else {
                b.entries_end
            };
            scan(b.data, b.entries_end, b.restarts[i] as nat, stop, Seq::empty(), target)
        },
    }
}

/// All entries from `pos` on, read one after another.
pub open spec fn read_entries(data: Seq<u8>, entries_end: nat, pos: nat, key: Seq<u8>) -> Result<
    Seq<Pair>,
    BlockError,
>
    decreases entries_end - pos,
    when pos <= data.len() && entries_end <= data.len()
{
    if pos >= entries_end {
        Ok(Seq::empty())
    } else {
        proof {
            lemma_step_advances(data, entries_end, pos, key);
        }
        let step = read_step(data, entries_end, pos, key);
        match step.outcome {
            Err(e) => Err(e),
            Ok(value) => match read_entries(data, entries_end, step.pos, step.key) {
                Err(e) => Err(e),
                Ok(rest) => Ok(seq![(step.key, value)] + rest),
            },
        }
    }
}

/// All entries of a block.
pub open spec fn block_entries(b: BlockView) -> Result<Seq<Pair>, BlockError> {
    read_entries(b.data, b.entries_end, 0, Seq::empty())
}

} // verus!
