//! Laws of segments: where their parts are, which bytes are one, and what a lookup reads.

use vstd::prelude::*;
use crate::block_model::{block_bytes, block_entries, block_get, open_block};
use crate::block_proof::law_has_room;
use crate::bloom::{filter_admits, filter_of};
use crate::checksum::crc32;
use crate::directory::{directory_valid, fst_at_least, fst_encoding, fst_entries, Slot};
use crate::format::{footer_bytes, footer_head, parse_footer, Footer, FormatError};
use crate::order::{find, lemma_find_absent, lemma_find_sorted, Pair};
use crate::segment_model::{
    block_at, block_end, block_lookup, block_range, block_start, blocks_of, data_of, directory_of,
    entries_at, entries_in, joined, keys_of, metadata_of, open_segment, open_tail, plan_of,
    segment_bytes, segment_entries, segment_get, segment_holds, segment_written, written_blocks,
    Fault, LookupPlan, MetadataView, SegmentView,
};
use crate::writer::SegmentWriterOptions;

verus! {

// ---------------------------------------------------------------------------
// Writing
// ---------------------------------------------------------------------------

/// Entries and bytes of blocks are those of each block, one after another.
pub proof fn law_concatenation(
    blocks: Seq<Seq<Pair>>,
    more: Seq<Seq<Pair>>,
    interval: nat,
)
    ensures
        joined(blocks + more) == joined(blocks) + joined(more),
        data_of(blocks + more, interval) == data_of(blocks, interval) + data_of(more, interval),
        blocks.len() == 1 ==> joined(blocks) == blocks[0],
        blocks.len() == 1 ==> data_of(blocks, interval) == block_bytes(blocks[0], interval),
        joined(Seq::empty()) == Seq::<Pair>::empty(),
        data_of(Seq::empty(), interval) == Seq::<u8>::empty(),
    decreases more.len(),
{
    if blocks.len() == 1 {
        let none = blocks.drop_last();
        assert(none =~= Seq::empty());
        assert(joined(none) =~= Seq::empty());
        assert(data_of(none, interval) =~= Seq::empty());
        assert(joined(blocks) =~= blocks[0]);
        assert(data_of(blocks, interval) =~= block_bytes(blocks[0], interval));
    }
    if more.len() == 0 {
        assert(blocks + more =~= blocks);
        assert(joined(blocks) + joined(more) =~= joined(blocks));
        assert(data_of(blocks, interval) + data_of(more, interval) =~= data_of(blocks, interval));
    } else {
        let fewer = more.drop_last();
        law_concatenation(blocks, fewer, interval);
        assert((blocks + more).drop_last() =~= blocks + fewer);
        assert(joined(blocks + more) =~= joined(blocks) + joined(more));
        assert(data_of(blocks + more, interval) =~= data_of(blocks, interval) + data_of(
            more,
            interval,
        ));
    }
}

/// Blocks are filled in order and as far as they have room: none is empty, together they hold the
/// entries, a block of several entries had room for its last, and had none for the first of the
/// next block. The room is what the limit leaves over the finished block, five bytes, key and
/// value.
pub proof fn law_blocks_are_filled(entries: Seq<Pair>, interval: nat, limit: nat, i: int)
    requires
        0 <= i < blocks_of(entries, interval, limit).len(),
    ensures
        ({
            let blocks = blocks_of(entries, interval, limit);
            let block = blocks[i];
            let last = block.last();
            &&& joined(blocks) == entries
            &&& block.len() > 0
            &&& block.len() > 1 ==> block_bytes(block.drop_last(), interval).len() + 5
                + last.0.len() + last.1.len() <= limit
            &&& i + 1 < blocks.len() ==> block_bytes(block, interval).len() + 5
                + blocks[i + 1][0].0.len() + blocks[i + 1][0].1.len() > limit
        }),
    decreases entries.len(),
{
    let blocks = blocks_of(entries, interval, limit);
    crate::segment_proof::lemma_blocks(entries, interval, limit);
    if entries.len() > 0 {
        let shorter = entries.drop_last();
        let e = entries.last();
        let before = blocks_of(shorter, interval, limit);
        crate::segment_proof::lemma_blocks(shorter, interval, limit);
        assert(shorter.push(e) =~= entries);
        crate::segment_proof::lemma_push_entry(shorter, e, interval, limit);
        if before.len() > 0 {
            law_has_room(before.last(), interval, limit, e.0, e.1);
            assert(before[before.len() - 1].len() > 0);
        }
        let grown = before.len() > 0 && crate::block_model::has_room(
            before.last(),
            interval,
            limit,
            e.0,
            e.1,
        );
        if i < before.len() {
            law_blocks_are_filled(shorter, interval, limit, i);
        }
        if grown {
            if i == before.len() - 1 {
                assert(blocks[i] == before.last().push(e));
                assert(before.last().push(e).drop_last() =~= before.last());
            } else if i + 1 == before.len() - 1 {
                assert(blocks[i] == before[i]);
                assert(before[i + 1].len() > 0);
                assert(blocks[i + 1] == before.last().push(e));
                assert(blocks[i + 1][0] == before[i + 1][0]);
            } else {
                assert(blocks[i] == before[i] && blocks[i + 1] == before[i + 1]);
            }
        } else if i == before.len() {
            assert(blocks[i] == seq![e]);
        } else if i + 1 == before.len() {
            assert(blocks[i] == before.last());
            assert(blocks[i + 1] == seq![e]);
        } else {
            assert(blocks[i] == before[i] && blocks[i + 1] == before[i + 1]);
        }
    }
}

/// A finished segment is its blocks, its filter, its directory and its footer, in this order. The
/// filter is that of all keys, or empty if none is asked for. The directory holds the last key of
/// each block with the place where the block begins. The footer says where all this is.
pub proof fn law_segment_layout(entries: Seq<Pair>, opts: SegmentWriterOptions)
    requires
        segment_bytes(entries, opts).len() <= u64::MAX,
        entries.len() <= u32::MAX,
    ensures
        ({
            let blocks = written_blocks(entries, opts);
            let meta = metadata_of(entries, opts);
            let f = meta.footer;
            let data = data_of(blocks, opts.interval());
            let slots = Seq::new(
                blocks.len(),
                |i: int| (blocks[i].last().0, block_start(blocks, opts.interval(), i) as u64),
            );
            &&& segment_bytes(entries, opts) == data + meta.filter + meta.directory + footer_bytes(
                f,
            )
            &&& meta.filter == if opts.enable_bloom {
                filter_of(Seq::new(entries.len(), |i: int| entries[i].0))
            } else {
                Seq::empty()
            }
            &&& meta.directory == fst_encoding(3, usize::MAX as nat, slots)
            &&& f.format_version == 1
            &&& f.data_blocks_offset == 0
            &&& f.data_blocks_length == data.len()
            &&& f.bloom_offset == data.len()
            &&& f.bloom_length == meta.filter.len()
            &&& f.fst_offset == data.len() + meta.filter.len()
            &&& f.fst_length == meta.directory.len()
            &&& f.key_count == entries.len()
            &&& f.checksum == crc32(footer_head(f))
        }),
{
    reveal(segment_bytes);
    reveal(metadata_of);
    let blocks = written_blocks(entries, opts);
    assert(keys_of(entries) =~= Seq::new(entries.len(), |i: int| entries[i].0));
    assert(directory_of(blocks, opts.interval()) =~= Seq::new(
        blocks.len(),
        |i: int| (blocks[i].last().0, block_start(blocks, opts.interval(), i) as u64),
    ));
}

/// A block begins where those before it end.
pub proof fn law_block_start(blocks: Seq<Seq<Pair>>, interval: nat, i: int)
    requires
        0 <= i < blocks.len(),
    ensures
        block_start(blocks, interval, 0) == 0,
        block_start(blocks, interval, i + 1) == block_start(blocks, interval, i) + block_bytes(
            blocks[i],
            interval,
        ).len(),
{
    assert(blocks.take(0) =~= Seq::empty());
    crate::segment_proof::lemma_block_span(blocks, interval, i);
}

/// Every entry is a restart point if an interval of 0 is asked for; otherwise the interval is the
/// one asked for.
pub proof fn law_interval(opts: SegmentWriterOptions)
    ensures
        opts.restart_interval == 0 ==> opts.interval() == 1,
        opts.restart_interval > 0 ==> opts.interval() == opts.restart_interval,
{
}

// ---------------------------------------------------------------------------
// Opening
// ---------------------------------------------------------------------------

/// Which bytes are a segment. The last 64 must be a footer; the sections that it gives must lie
/// within the bytes (a filter only if it is not empty), the blocks are looked at first, then the
/// filter, then the directory; and the directory must be one. What is opened is the filter and the
/// directory that stand there.
pub proof fn law_open_segment(data: Seq<u8>)
    requires
        data.len() <= u64::MAX,
    ensures
        ({
            let n = data.len() as int;
            match open_segment(data) {
                Err(fault) => if n < 64 {
                    fault == Fault::Format(FormatError::TooSmall { size: n as u64 })
                } else {
                    match parse_footer(data.subrange(n - 64, n)) {
                        Err(e) => fault == Fault::Format(e),
                        Ok(f) => if f.data_blocks_offset + f.data_blocks_length > n {
                            fault == (Fault::InvalidOffset {
                                section: "data_blocks"@,
                                offset: f.data_blocks_offset,
                                length: f.data_blocks_length,
                                segment_size: n as u64,
                            })
                        } else if f.bloom_length > 0 && f.bloom_offset + f.bloom_length > n {
                            fault == (Fault::InvalidOffset {
                                section: "bloom"@,
                                offset: f.bloom_offset,
                                length: f.bloom_length,
                                segment_size: n as u64,
                            })
                        } else if f.fst_offset + f.fst_length > n {
                            fault == (Fault::InvalidOffset {
                                section: "fst"@,
                                offset: f.fst_offset,
                                length: f.fst_length,
                                segment_size: n as u64,
                            })
                        } else {
                            &&& fault == Fault::FstError("FST error"@)
                            &&& !directory_valid(
                                data.subrange(f.fst_offset as int, f.fst_offset + f.fst_length),
                            )
                        },
                    }
                },
                Ok(s) => {
                    let f = s.meta.footer;
                    &&& n >= 64
                    &&& parse_footer(data.subrange(n - 64, n)) == Ok::<Footer, FormatError>(f)
                    &&& f.data_blocks_offset + f.data_blocks_length <= n
                    &&& f.bloom_length > 0 ==> f.bloom_offset + f.bloom_length <= n
                    &&& f.fst_offset + f.fst_length <= n
                    &&& directory_valid(s.meta.directory)
                    &&& s.data == data
                    &&& s.meta.directory == data.subrange(
                        f.fst_offset as int,
                        f.fst_offset + f.fst_length,
                    )
                    &&& s.meta.filter == if f.bloom_length > 0 {
                        data.subrange(f.bloom_offset as int, f.bloom_offset + f.bloom_length)
                    } else {
                        Seq::empty()
                    }
                },
            }
        }),
{
    reveal(open_segment);
    let n = data.len() as int;
    if n >= 64 {
        assert(data.subrange(n - 64, n) =~= data.skip(n - 64));
    }
}

/// Which ends of a segment can be opened: as for the whole, and the end must reach back to filter
/// and directory; if not, the error says from where on they would.
pub proof fn law_open_tail(tail: Seq<u8>, size: u64)
    requires
        tail.len() <= size,
    ensures
        ({
            let n = tail.len() as int;
            let base = size - n;
            match open_tail(tail, size) {
                Err(fault) => if n < 64 {
                    fault == Fault::Format(FormatError::TooSmall { size: n as u64 })
                } else {
                    match parse_footer(tail.subrange(n - 64, n)) {
                        Err(e) => fault == Fault::Format(e),
                        Ok(f) => if f.bloom_offset < base {
                            fault == (Fault::TailTooSmall {
                                needed: (size - f.bloom_offset) as usize,
                                got: n as usize,
                            })
                        } else if f.data_blocks_offset + f.data_blocks_length > size {
                            fault == (Fault::InvalidOffset {
                                section: "data_blocks"@,
                                offset: f.data_blocks_offset,
                                length: f.data_blocks_length,
                                segment_size: size,
                            })
                        } else if f.bloom_length > 0 && f.bloom_offset + f.bloom_length > size {
                            fault == (Fault::InvalidOffset {
                                section: "bloom"@,
                                offset: f.bloom_offset,
                                length: f.bloom_length,
                                segment_size: size,
                            })
                        } else if f.fst_offset + f.fst_length > size {
                            fault == (Fault::InvalidOffset {
                                section: "fst"@,
                                offset: f.fst_offset,
                                length: f.fst_length,
                                segment_size: size,
                            })
                        } else if f.fst_offset < base {
                            fault == (Fault::TailTooSmall {
                                needed: (size - f.fst_offset) as usize,
                                got: n as usize,
                            })
                        } else {
                            &&& fault == Fault::FstError("FST error"@)
                            &&& !directory_valid(
                                tail.subrange(
                                    f.fst_offset - base,
                                    f.fst_offset - base + f.fst_length,
                                ),
                            )
                        },
                    }
                },
                Ok(meta) => {
                    let f = meta.footer;
                    &&& n >= 64
                    &&& parse_footer(tail.subrange(n - 64, n)) == Ok::<Footer, FormatError>(f)
                    &&& base <= f.bloom_offset && base <= f.fst_offset
                    &&& directory_valid(meta.directory)
                    &&& meta.directory == tail.subrange(
                        f.fst_offset - base,
                        f.fst_offset - base + f.fst_length,
                    )
                    &&& meta.filter == if f.bloom_length > 0 {
                        tail.subrange(
                            f.bloom_offset - base,
                            f.bloom_offset - base + f.bloom_length,
                        )
                    } else {
                        Seq::empty()
                    }
                },
            }
        }),
{
    let n = tail.len() as int;
    if n >= 64 {
        assert(tail.subrange(n - 64, n) =~= tail.skip(n - 64));
    }
}

// ---------------------------------------------------------------------------
// Reading
// ---------------------------------------------------------------------------

/// Where a block ends: `k` is the first slot that gives its offset. It ends where the next slot
/// says that the next block begins, or with the data if there is no next slot or no such slot. An
/// offset that is not in the data has no block.
pub proof fn law_block_range(m: MetadataView, offset: u64, k: int)
    requires
        0 <= k <= fst_entries(m.directory).len(),
        forall|j: int| 0 <= j < k ==> (#[trigger] fst_entries(m.directory)[j]).1 != offset,
        k < fst_entries(m.directory).len() ==> fst_entries(m.directory)[k].1 == offset,
    ensures
        offset >= m.footer.data_blocks_length ==> block_range(m, offset) is None,
        offset < m.footer.data_blocks_length ==> block_range(m, offset) == Some(
            (
                offset,
                if k + 1 < fst_entries(m.directory).len() {
                    fst_entries(m.directory)[k + 1].1
                } else {
                    m.footer.data_blocks_length
                },
            ),
        ),
{
    lemma_block_end_at(fst_entries(m.directory), offset, m.footer.data_blocks_length, k);
}

proof fn lemma_block_end_at(slots: Seq<Slot>, offset: u64, data_end: u64, k: int)
    requires
        0 <= k <= slots.len(),
        forall|j: int| 0 <= j < k ==> (#[trigger] slots[j]).1 != offset,
        k < slots.len() ==> slots[k].1 == offset,
    ensures
        block_end(slots, offset, data_end) == if k + 1 < slots.len() {
            slots[k + 1].1
        } else {
            data_end
        },
    decreases slots.len(),
{
    if k > 0 {
        let rest = slots.drop_first();
        assert(slots[0].1 != offset);
        assert forall|j: int| 0 <= j < k - 1 implies (#[trigger] rest[j]).1 != offset by {
            assert(rest[j] == slots[j + 1]);
        }
        lemma_block_end_at(rest, offset, data_end, k - 1);
    }
}

/// What a lookup reads. Nothing, exactly if the filter rules the key out or the directory has no
/// key at or after it; otherwise the block that the directory gives for the first such key.
pub proof fn law_plan(m: MetadataView, key: Seq<u8>)
    ensures
        match plan_of(m, key) {
            LookupPlan::Absent => !filter_admits(m.filter, key) || fst_at_least(
                m.directory,
                key,
            ) is None,
            LookupPlan::Block { start, end } => {
                &&& filter_admits(m.filter, key)
                &&& fst_at_least(m.directory, key) == Some(start)
                &&& block_range(m, start) == Some((start, end))
                &&& start <= end
            },
            LookupPlan::Invalid { offset } => {
                &&& filter_admits(m.filter, key)
                &&& fst_at_least(m.directory, key) == Some(offset)
                &&& block_range(m, offset) matches Some((start, end)) ==> end < start
            },
        },
{
}

/// A key that the filter rules out is answered without reading, and so is one that the directory
/// has nothing at or after; any other is looked up in the one block that the directory gives.
pub proof fn law_segment_get(s: SegmentView, key: Seq<u8>)
    ensures
        !filter_admits(s.meta.filter, key) || fst_at_least(s.meta.directory, key) is None
            ==> segment_get(s, key) == Ok::<Option<Seq<u8>>, Fault>(None),
        filter_admits(s.meta.filter, key) ==> (fst_at_least(s.meta.directory, key) matches Some(
            offset,
        ) ==> match block_range(s.meta, offset) {
            Some((start, end)) => if start <= end <= s.data.len() {
                segment_get(s, key) == block_lookup(
                    s.data.subrange(start as int, end as int),
                    key,
                )
            } else {
                segment_get(s, key) == Err::<Option<Seq<u8>>, Fault>(
                    Fault::InvalidBlockOffset(offset),
                )
            },
            None => segment_get(s, key) == Err::<Option<Seq<u8>>, Fault>(
                Fault::InvalidBlockOffset(offset),
            ),
        }),
{
    reveal(segment_get);
}

/// Iterating goes through the blocks in the order of the directory, and gives the entries of each;
/// the first block that cannot be read ends it with its error.
pub proof fn law_segment_entries(s: SegmentView, k: int)
    requires
        0 <= k <= fst_entries(s.meta.directory).len(),
        forall|j: int|
            0 <= j < k ==> entries_at(s, (#[trigger] fst_entries(s.meta.directory)[j]).1) is Ok,
    ensures
        k < fst_entries(s.meta.directory).len() ==> (entries_at(
            s,
            fst_entries(s.meta.directory)[k].1,
        ) matches Err(fault) ==> segment_entries(s) == Err::<Seq<Pair>, Fault>(fault)),
        k == fst_entries(s.meta.directory).len() ==> segment_entries(s) == Ok::<Seq<Pair>, Fault>(
            joined(Seq::new(k as nat, |j: int| entries_at(
                s,
                fst_entries(s.meta.directory)[j].1,
            )->Ok_0)),
        ),
{
    reveal(segment_entries);
    let slots = fst_entries(s.meta.directory);
    lemma_entries_so_far(s, slots, k);
    if k < slots.len() {
        assert(slots.take(k + 1).drop_last() =~= slots.take(k));
        assert(slots.take(k + 1).last() == slots[k]);
        if entries_at(s, slots[k].1) is Err {
            crate::segment_proof::lemma_entries_fault(s, slots, k + 1);
        }
    } else {
        assert(slots.take(k) =~= slots);
    }
}

proof fn lemma_entries_so_far(s: SegmentView, slots: Seq<Slot>, k: int)
    requires
        0 <= k <= slots.len(),
        forall|j: int| 0 <= j < k ==> entries_at(s, (#[trigger] slots[j]).1) is Ok,
    ensures
        entries_in(s, slots.take(k)) == Ok::<Seq<Pair>, Fault>(
            joined(Seq::new(k as nat, |j: int| entries_at(s, slots[j].1)->Ok_0)),
        ),
    decreases k,
{
    let all = Seq::new(k as nat, |j: int| entries_at(s, slots[j].1)->Ok_0);
    if k > 0 {
        lemma_entries_so_far(s, slots, k - 1);
        assert(slots.take(k).drop_last() =~= slots.take(k - 1));
        assert(slots.take(k).last() == slots[k - 1]);
        assert(entries_at(s, slots[k - 1].1) is Ok);
        assert(all.drop_last() =~= Seq::new(
            (k - 1) as nat,
            |j: int| entries_at(s, slots[j].1)->Ok_0,
        ));
    }
}

/// The block at an offset is the bytes of its range, if the range runs forward within the segment.
pub proof fn law_block_at(s: SegmentView, offset: u64)
    ensures
        match block_range(s.meta, offset) {
            Some((start, end)) => block_at(s, offset) == if start <= end <= s.data.len() {
                Ok::<Seq<u8>, Fault>(s.data.subrange(start as int, end as int))
            } else {
                Err(Fault::InvalidBlockOffset(offset))
            },
            None => block_at(s, offset) == Err::<Seq<u8>, Fault>(
                Fault::InvalidBlockOffset(offset),
            ),
        },
{
}

/// A block that cannot be opened or read is reported as a damaged block, with the reason; otherwise
/// what it gives is what is found in it.
pub proof fn law_one_block(s: SegmentView, offset: u64, block: Seq<u8>, key: Seq<u8>)
    ensures
        match open_block(block) {
            Err(e) => block_lookup(block, key) == Err::<Option<Seq<u8>>, Fault>(Fault::Block(e)),
            Ok(b) => match block_get(b, key) {
                Err(e) => block_lookup(block, key) == Err::<Option<Seq<u8>>, Fault>(
                    Fault::Block(e),
                ),
                Ok(value) => block_lookup(block, key) == Ok::<Option<Seq<u8>>, Fault>(value),
            },
        },
        match block_at(s, offset) {
            Err(fault) => entries_at(s, offset) == Err::<Seq<Pair>, Fault>(fault),
            Ok(bytes) => match open_block(bytes) {
                Err(e) => entries_at(s, offset) == Err::<Seq<Pair>, Fault>(Fault::Block(e)),
                Ok(b) => match block_entries(b) {
                    Err(e) => entries_at(s, offset) == Err::<Seq<Pair>, Fault>(Fault::Block(e)),
                    Ok(entries) => entries_at(s, offset) == Ok::<Seq<Pair>, Fault>(entries),
                },
            },
        },
{
}

/// What was written is read. A finished segment opens with the right number of keys; a lookup gives
/// the value of the entry with the key, and nothing if there is none; iterating gives all entries.
/// Keys and values must be shorter than 2^32 bytes.
pub proof fn law_written_is_read(
    data: Seq<u8>,
    entries: Seq<Pair>,
    opts: SegmentWriterOptions,
    key: Seq<u8>,
    i: int,
)
    requires
        segment_written(data, entries, opts),
        forall|j: int|
            0 <= j < entries.len() ==> (#[trigger] entries[j]).0.len() < 0x1_0000_0000
                && entries[j].1.len() < 0x1_0000_0000,
    ensures
        data == segment_bytes(entries, opts),
        open_segment(data) is Ok,
        ({
            let s = open_segment(data)->Ok_0;
            &&& s.data == data
            &&& s.meta == metadata_of(entries, opts)
            &&& s.meta.footer.key_count as nat == entries.len()
            &&& segment_entries(s) == Ok::<Seq<Pair>, Fault>(entries)
            &&& 0 <= i < entries.len() ==> segment_get(s, entries[i].0) == Ok::<
                Option<Seq<u8>>,
                Fault,
            >(Some(entries[i].1))
            &&& 0 <= i < entries.len() ==> filter_admits(s.meta.filter, entries[i].0)
            &&& (forall|j: int| 0 <= j < entries.len() ==> (#[trigger] entries[j]).0 != key)
                ==> segment_get(s, key) == Ok::<Option<Seq<u8>>, Fault>(None)
        }),
{
    let s = open_segment(data)->Ok_0;
    assert(segment_holds(data, entries));
    if 0 <= i < entries.len() {
        lemma_find_sorted(entries, i);
        assert(segment_get(s, entries[i].0) == Ok::<Option<Seq<u8>>, Fault>(
            find(entries, entries[i].0),
        ));
    }
    if forall|j: int| 0 <= j < entries.len() ==> (#[trigger] entries[j]).0 != key {
        lemma_find_absent(entries, key);
        assert(segment_get(s, key) == Ok::<Option<Seq<u8>>, Fault>(find(entries, key)));
    }
}

} // verus!
