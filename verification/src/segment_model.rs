//! What the bytes of a segment mean.

use vstd::prelude::*;
use crate::block::BlockError;
use crate::block_model::{block_bytes, block_entries, block_get, has_room, open_block};
use crate::block_proof::lengths_fit;
use crate::bloom::{filter_admits, filter_of};
use crate::checksum::crc32;
use crate::directory::{
    directory_genuine, directory_holds, directory_valid, fst_at_least, fst_encoding, fst_entries,
    Slot,
};
use crate::format::{footer_bytes, footer_head, parse_footer, Footer, FormatError, FORMAT_VERSION};
use crate::order::{ascending, Pair};
use crate::storage::StorageFault;
use crate::writer::SegmentWriterOptions;

verus! {

// ---------------------------------------------------------------------------
// Writing
// ---------------------------------------------------------------------------

/// How entries are spread over blocks: each goes into the block being filled, if that has room,
/// and otherwise begins the next one.
pub open spec fn blocks_of(entries: Seq<Pair>, interval: nat, limit: nat) -> Seq<Seq<Pair>>
    decreases entries.len(),
{
    if entries.len() == 0 {
        Seq::empty()
    } else {
        let before = blocks_of(entries.drop_last(), interval, limit);
        let e = entries.last();
        if before.len() > 0 && has_room(before.last(), interval, limit, e.0, e.1) {
            before.drop_last().push(before.last().push(e))
        } else {
            before.push(seq![e])
        }
    }
}

/// The entries of blocks, one block after another.
pub open spec fn joined(blocks: Seq<Seq<Pair>>) -> Seq<Pair>
    decreases blocks.len(),
{
    if blocks.len() == 0 {
        Seq::empty()
    } else {
        joined(blocks.drop_last()) + blocks.last()
    }
}

/// The bytes of blocks, one block after another.
pub open spec fn data_of(blocks: Seq<Seq<Pair>>, interval: nat) -> Seq<u8>
    decreases blocks.len(),
{
    if blocks.len() == 0 {
        Seq::empty()
    } else {
        data_of(blocks.drop_last(), interval) + block_bytes(blocks.last(), interval)
    }
}

/// Where block `i` begins.
pub open spec fn block_start(blocks: Seq<Seq<Pair>>, interval: nat, i: int) -> nat {
    data_of(blocks.take(i), interval).len()
}

/// The directory of blocks: the last key of each, with the offset of the block.
pub open spec fn directory_of(blocks: Seq<Seq<Pair>>, interval: nat) -> Seq<Slot> {
    Seq::new(
        blocks.len(),
        |i: int| (blocks[i].last().0, block_start(blocks, interval, i) as u64),
    )
}

/// The keys of entries.
pub open spec fn keys_of(entries: Seq<Pair>) -> Seq<Seq<u8>> {
    entries.map_values(|e: Pair| e.0)
}

/// The three sections of a segment: data blocks, filter and directory.
pub open spec fn sections_of(entries: Seq<Pair>, opts: SegmentWriterOptions) -> (
    Seq<u8>,
    Seq<u8>,
    Seq<u8>,
) {
    let blocks = blocks_of(entries, opts.interval(), opts.block_size as nat);
    (
        data_of(blocks, opts.interval()),
        if opts.enable_bloom {
            filter_of(keys_of(entries))
        } else {
            Seq::empty()
        },
        fst_encoding(3, usize::MAX as nat, directory_of(blocks, opts.interval())),
    )
}

/// The footer over three sections that lie one behind another.
pub open spec fn footer_of(
    data: Seq<u8>,
    filter: Seq<u8>,
    directory: Seq<u8>,
    keys: nat,
) -> Footer {
    Footer {
        format_version: FORMAT_VERSION,
        data_blocks_offset: 0,
        data_blocks_length: data.len() as u64,
        bloom_offset: data.len() as u64,
        bloom_length: filter.len() as u64,
        fst_offset: (data.len() + filter.len()) as u64,
        fst_length: directory.len() as u64,
        key_count: keys as u32,
        checksum: 0,
    }
}

/// The three sections and the footer over them.
pub open spec fn assembled(data: Seq<u8>, filter: Seq<u8>, directory: Seq<u8>, keys: nat) -> Seq<
    u8,
> {
    data + filter + directory + footer_bytes(footer_of(data, filter, directory, keys))
}

/// A finished segment.
#[verifier::opaque]
pub open spec fn segment_bytes(entries: Seq<Pair>, opts: SegmentWriterOptions) -> Seq<u8> {
    let (data, filter, directory) = sections_of(entries, opts);
    assembled(data, filter, directory, entries.len())
}

// ---------------------------------------------------------------------------
// Reading
// ---------------------------------------------------------------------------

/// Why a segment cannot be read.
#[verifier::ext_equal]
pub enum Fault {
    Format(FormatError),
    Block(BlockError),
    FstError(Seq<char>),
    InvalidBlockOffset(u64),
    InvalidOffset { section: Seq<char>, offset: u64, length: u64, segment_size: u64 },
    TailTooSmall { needed: usize, got: usize },
    Storage(StorageFault),
}

/// What a reader keeps of a segment besides its data blocks.
#[verifier::ext_equal]
pub struct MetadataView {
    pub footer: Footer,
    /// The bytes of the directory.
    pub directory: Seq<u8>,
    /// The bytes of the filter.
    pub filter: Seq<u8>,
}

/// A segment opened as a whole.
#[verifier::ext_equal]
pub struct SegmentView {
    /// The whole segment.
    pub data: Seq<u8>,
    pub meta: MetadataView,
}

/// The fault of a section that does not lie within the segment.
pub open spec fn section_fault(section: Seq<char>, offset: u64, length: u64, size: u64) -> Option<
    Fault,
> {
    if offset + length > size {
        Some(Fault::InvalidOffset { section, offset, length, segment_size: size })
    } else {
        None
    }
}

/// The first section of a footer that does not lie within the segment. An empty filter lies
/// anywhere.
pub open spec fn sections_fault(f: Footer, size: u64) -> Option<Fault> {
    let blocks = section_fault("data_blocks"@, f.data_blocks_offset, f.data_blocks_length, size);
    let bloom = section_fault("bloom"@, f.bloom_offset, f.bloom_length, size);
    if blocks is Some {
        blocks
    } else if f.bloom_length > 0 && bloom is Some {
        bloom
    } else {
        section_fault("fst"@, f.fst_offset, f.fst_length, size)
    }
}

/// Takes the metadata out of `data`, the segment from the offset `base` to its end. The sections
/// of the footer `f` must lie within it.
pub open spec fn load_metadata(data: Seq<u8>, base: u64, f: Footer) -> Result<MetadataView, Fault> {
    let filter = if f.bloom_length > 0 {
        data.subrange(f.bloom_offset - base, f.bloom_offset - base + f.bloom_length)
    } else {
        Seq::empty()
    };
    let directory = directory_in(data, base, f);
    if directory_valid(directory) {
        Ok(MetadataView { footer: f, directory, filter })
    } else {
        Err(Fault::FstError("FST error"@))
    }
}

/// Reads the footer at the end of `data`.
pub open spec fn load_footer(data: Seq<u8>) -> Result<Footer, Fault> {
    if data.len() < 64 {
        Err(Fault::Format(FormatError::TooSmall { size: data.len() as u64 }))
    } else {
        match parse_footer(data.skip(data.len() - 64)) {
            Err(e) => Err(Fault::Format(e)),
            Ok(f) => Ok(f),
        }
    }
}

/// Opens a whole segment.
#[verifier::opaque]
pub open spec fn open_segment(data: Seq<u8>) -> Result<SegmentView, Fault> {
    match load_footer(data) {
        Err(fault) => Err(fault),
        Ok(f) => match sections_fault(f, data.len() as u64) {
            Some(fault) => Err(fault),
            None => match load_metadata(data, 0, f) {
                Err(fault) => Err(fault),
                Ok(meta) => Ok(SegmentView { data, meta }),
            },
        },
    }
}

/// Opens the metadata of a segment of `size` bytes, of which `tail` is the end.
pub open spec fn open_tail(tail: Seq<u8>, size: u64) -> Result<MetadataView, Fault> {
    let base = (size - tail.len()) as u64;
    match load_footer(tail) {
        Err(fault) => Err(fault),
        Ok(f) => if f.bloom_offset < base {
            Err(
                Fault::TailTooSmall {
                    needed: (size - f.bloom_offset) as usize,
                    got: tail.len() as usize,
                },
            )
        } else {
            match sections_fault(f, size) {
                Some(fault) => Err(fault),
                None => if f.fst_offset < base {
                    Err(
                        Fault::TailTooSmall {
                            needed: (size - f.fst_offset) as usize,
                            got: tail.len() as usize,
                        },
                    )
                } else {
                    load_metadata(tail, base, f)
                },
            }
        },
    }
}

/// The directory that the footer `f` gives, in `data`, the segment from the offset `base` to its
/// end.
pub open spec fn directory_in(data: Seq<u8>, base: u64, f: Footer) -> Seq<u8> {
    data.subrange(f.fst_offset - base, f.fst_offset - base + f.fst_length)
}

/// Opening the segment `data` comes upon no directory but what a builder made, unless the directory
/// is refused.
#[verifier::opaque]
pub open spec fn segment_genuine(data: Seq<u8>) -> bool {
    load_footer(data) matches Ok(f) ==> (sections_fault(f, data.len() as u64) is None
        ==> directory_genuine(directory_in(data, 0, f)))
}

/// Opening the metadata of a segment of `size` bytes, of which `tail` is the end, comes upon no
/// directory but what a builder made, unless the directory is refused.
#[verifier::opaque]
pub open spec fn tail_genuine(tail: Seq<u8>, size: u64) -> bool {
    let base = (size - tail.len()) as u64;
    load_footer(tail) matches Ok(f) ==> (f.bloom_offset >= base && sections_fault(f, size) is None
        && f.fst_offset >= base ==> directory_genuine(directory_in(tail, base, f)))
}

/// Where the block at `offset` ends: at the block that the directory lists next, or with the
/// data.
pub open spec fn block_end(slots: Seq<Slot>, offset: u64, data_end: u64) -> u64
    decreases slots.len(),
{
    if slots.len() == 0 {
        data_end
    } else if slots[0].1 == offset {
        if slots.len() > 1 {
            slots[1].1
        } else {
            data_end
        }
    } else {
        block_end(slots.drop_first(), offset, data_end)
    }
}

/// The byte range of the block at `offset`, as the directory has it; none if `offset` is not in the
/// data.
pub open spec fn block_range(m: MetadataView, offset: u64) -> Option<(u64, u64)> {
    let data_end = m.footer.data_blocks_length;
    if offset >= data_end {
        None
    } else {
        Some((offset, block_end(fst_entries(m.directory), offset, data_end)))
    }
}

/// What has to be read to look a key up.
#[derive(Debug, Clone, Copy, PartialEq, Eq, Structural)]
pub enum LookupPlan {
    /// Nothing: the segment does not hold the key.
    Absent,
    /// The block from `start` to `end`.
    Block { start: u64, end: u64 },
    /// Nothing can be read: the directory gives an offset at which there is no block.
    Invalid { offset: u64 },
}

/// Decides from the metadata what has to be read to look `key` up.
pub open spec fn plan_of(m: MetadataView, key: Seq<u8>) -> LookupPlan {
    if !filter_admits(m.filter, key) {
        LookupPlan::Absent
    } else {
        match fst_at_least(m.directory, key) {
            None => LookupPlan::Absent,
            Some(offset) => match block_range(m, offset) {
                Some((start, end)) => if start <= end {
                    LookupPlan::Block { start, end }
                } else {
                    LookupPlan::Invalid { offset }
                },
                None => LookupPlan::Invalid { offset },
            },
        }
    }
}

/// Looks `key` up in the bytes of one block.
pub open spec fn block_lookup(block: Seq<u8>, key: Seq<u8>) -> Result<Option<Seq<u8>>, Fault> {
    match open_block(block) {
        Err(e) => Err(Fault::Block(e)),
        Ok(b) => match block_get(b, key) {
            Err(e) => Err(Fault::Block(e)),
            Ok(found) => Ok(found),
        },
    }
}

/// The block at `offset` of a segment.
pub open spec fn block_at(s: SegmentView, offset: u64) -> Result<Seq<u8>, Fault> {
    match block_range(s.meta, offset) {
        Some((start, end)) if start <= end <= s.data.len() => Ok(
            s.data.subrange(start as int, end as int),
        ),
        _ => Err(Fault::InvalidBlockOffset(offset)),
    }
}

/// Looks `key` up in a segment.
#[verifier::opaque]
pub open spec fn segment_get(s: SegmentView, key: Seq<u8>) -> Result<Option<Seq<u8>>, Fault> {
    if !filter_admits(s.meta.filter, key) {
        Ok(None)
    } else {
        match fst_at_least(s.meta.directory, key) {
            None => Ok(None),
            Some(offset) => match block_at(s, offset) {
                Err(fault) => Err(fault),
                Ok(block) => block_lookup(block, key),
            },
        }
    }
}

/// The entries of the block at `offset`.
pub open spec fn entries_at(s: SegmentView, offset: u64) -> Result<Seq<Pair>, Fault> {
    match block_at(s, offset) {
        Err(fault) => Err(fault),
        Ok(block) => match open_block(block) {
            Err(e) => Err(Fault::Block(e)),
            Ok(b) => match block_entries(b) {
                Err(e) => Err(Fault::Block(e)),
                Ok(entries) => Ok(entries),
            },
        },
    }
}

/// The entries of the blocks that slots point at, up to the first fault.
pub open spec fn entries_in(s: SegmentView, slots: Seq<Slot>) -> Result<Seq<Pair>, Fault>
    decreases slots.len(),
{
    if slots.len() == 0 {
        Ok(Seq::empty())
    } else {
        match entries_in(s, slots.drop_last()) {
            Err(fault) => Err(fault),
            Ok(before) => match entries_at(s, slots.last().1) {
                Err(fault) => Err(fault),
                Ok(entries) => Ok(before + entries),
            },
        }
    }
}

/// All entries of a segment.
#[verifier::opaque]
pub open spec fn segment_entries(s: SegmentView) -> Result<Seq<Pair>, Fault> {
    entries_in(s, fst_entries(s.meta.directory))
}

/// The metadata of a finished segment.
#[verifier::opaque]
pub open spec fn metadata_of(entries: Seq<Pair>, opts: SegmentWriterOptions) -> MetadataView {
    let (data, filter, directory) = sections_of(entries, opts);
    let f = footer_of(data, filter, directory, entries.len());
    MetadataView { footer: Footer { checksum: crc32(footer_head(f)), ..f }, directory, filter }
}

/// The blocks of a finished segment.
pub open spec fn written_blocks(entries: Seq<Pair>, opts: SegmentWriterOptions) -> Seq<Seq<Pair>> {
    blocks_of(entries, opts.interval(), opts.block_size as nat)
}

/// Reading `data` as a segment gives `entries`: it opens, its key count is right, looking any key
/// up gives what `entries` hold under it, and iterating gives all of them in order.
pub open spec fn segment_holds(data: Seq<u8>, entries: Seq<Pair>) -> bool {
    match open_segment(data) {
        Err(_) => false,
        Ok(s) => {
            &&& s.meta.footer.key_count as nat == entries.len()
            &&& forall|key: Seq<u8>| #[trigger]
                segment_get(s, key) == Ok::<Option<Seq<u8>>, Fault>(
                    crate::order::find(entries, key),
                )
            &&& segment_entries(s) == Ok::<Seq<Pair>, Fault>(entries)
        },
    }
}

/// `data` is the segment that was written from `entries`, which are sorted by key, no key twice. It
/// has the bytes that these call for; it opens, with the metadata that these call for; the
/// directory lists its blocks; the filter lets every key through. If the lengths of keys and values
/// can be stored, reading it gives `entries`.
pub open spec fn segment_written(
    data: Seq<u8>,
    entries: Seq<Pair>,
    opts: SegmentWriterOptions,
) -> bool {
    let meta = metadata_of(entries, opts);
    &&& ascending(entries)
    &&& data == segment_bytes(entries, opts)
    &&& open_segment(data) == Ok::<SegmentView, Fault>(SegmentView { data, meta })
    &&& segment_genuine(data)
    &&& directory_holds(
        meta.directory,
        directory_of(written_blocks(entries, opts), opts.interval()),
    )
    &&& forall|i: int|
        0 <= i < entries.len() ==> filter_admits(meta.filter, (#[trigger] entries[i]).0)
    &&& lengths_fit(entries) ==> segment_holds(data, entries)
}

} // verus!
