//! Reading a segment gives back the entries it was written from.

use vstd::prelude::*;
use crate::block::BlockError;
use crate::block_model::{block_body, block_bytes, has_room, len32, restart_offsets};
use crate::block_proof::{
    law_block_entries, law_block_get, law_finished_block_damage, lengths_fit, restarts_fit,
};
use crate::bloom::filter_admits;
use crate::bytes::{le_value, lemma_le_len};
use crate::checksum::crc32;
use crate::directory::{
    built, directory_holds, directory_valid, fst_at_least, law_directory_damage, Slot,
};
use crate::format::{
    footer_bytes, footer_head, law_footer_damage, law_footer_round_trip, lemma_footer_len,
    parse_footer, Footer, FormatError,
};
use crate::order::{
    ascending, find, find_at_least, lemma_find_absent, lemma_find_concat, lemma_find_present,
    lemma_lex_irreflexive, lemma_lex_not_after_then_before, lemma_lex_transitive, lex_less, Pair,
};
use crate::segment_model::{
    assembled, block_at, block_end, block_lookup, block_range, block_start, blocks_of, data_of,
    directory_in, directory_of, entries_at, entries_in, footer_of, joined, load_footer, metadata_of,
    open_segment, open_tail, plan_of, sections_fault, sections_of, segment_bytes, segment_entries,
    segment_genuine, segment_get, segment_holds, segment_written, tail_genuine, written_blocks,
    Fault, LookupPlan, MetadataView, SegmentView,
};
use crate::writer::SegmentWriterOptions;

verus! {

/// A block is not empty, and the format can store its restart points.
pub open spec fn block_fits(block: Seq<Pair>, interval: nat) -> bool {
    &&& interval > 0
    &&& block.len() > 0
    &&& restarts_fit(block, interval)
    &&& restart_offsets(block, interval).len() < 0x1_0000_0000
}

/// What adding an entry does to the blocks.
pub proof fn lemma_push_entry(entries: Seq<Pair>, e: Pair, interval: nat, limit: nat)
    ensures
        ({
            let before = blocks_of(entries, interval, limit);
            blocks_of(entries.push(e), interval, limit) == if before.len() > 0 && has_room(
                before.last(),
                interval,
                limit,
                e.0,
                e.1,
            ) {
                before.drop_last().push(before.last().push(e))
            } else {
                before.push(seq![e])
            }
        }),
        ascending(entries) && (entries.len() == 0 || lex_less(entries.last().0, e.0)) ==> ascending(
            entries.push(e),
        ),
{
    let more = entries.push(e);
    assert(more.drop_last() =~= entries);
    if ascending(entries) && (entries.len() == 0 || lex_less(entries.last().0, e.0)) {
        assert forall|i: int, j: int| 0 <= i < j < more.len() implies lex_less(
            #[trigger] more[i].0,
            #[trigger] more[j].0,
        ) by {
            if j == entries.len() && i < entries.len() - 1 {
                assert(lex_less(entries[i].0, entries.last().0));
                lemma_lex_transitive(entries[i].0, entries.last().0, e.0);
            }
        }
    }
}

/// What appending a block does to the data and the directory.
pub proof fn lemma_push_block(blocks: Seq<Seq<Pair>>, block: Seq<Pair>, interval: nat)
    ensures
        data_of(blocks.push(block), interval) == data_of(blocks, interval) + block_bytes(
            block,
            interval,
        ),
        directory_of(blocks.push(block), interval) == directory_of(blocks, interval).push(
            (block.last().0, data_of(blocks, interval).len() as u64),
        ),
{
    let more = blocks.push(block);
    assert(more.drop_last() =~= blocks);
    assert forall|i: int| 0 <= i < more.len() implies directory_of(more, interval)[i]
        == directory_of(blocks, interval).push(
        (block.last().0, data_of(blocks, interval).len() as u64),
    )[i] by {
        if i < blocks.len() {
            assert(more.take(i) =~= blocks.take(i));
        } else {
            assert(more.take(i) =~= blocks);
        }
    }
    assert(directory_of(more, interval) =~= directory_of(blocks, interval).push(
        (block.last().0, data_of(blocks, interval).len() as u64),
    ));
}

// ---------------------------------------------------------------------------
// Layout of the blocks
// ---------------------------------------------------------------------------

/// The blocks hold all entries in order, and none of them is empty.
pub proof fn lemma_blocks(entries: Seq<Pair>, interval: nat, limit: nat)
    ensures
        joined(blocks_of(entries, interval, limit)) == entries,
        entries.len() > 0 <==> blocks_of(entries, interval, limit).len() > 0,
        forall|i: int|
            0 <= i < blocks_of(entries, interval, limit).len() ==> (#[trigger] blocks_of(
                entries,
                interval,
                limit,
            )[i]).len() > 0,
    decreases entries.len(),
{
    if entries.len() > 0 {
        let before = blocks_of(entries.drop_last(), interval, limit);
        let after = blocks_of(entries, interval, limit);
        let e = entries.last();
        lemma_blocks(entries.drop_last(), interval, limit);
        if before.len() > 0 && has_room(before.last(), interval, limit, e.0, e.1) {
            assert(after.drop_last() =~= before.drop_last());
            assert(joined(after) =~= joined(before).push(e));
        } else {
            assert(after.drop_last() =~= before);
            assert(joined(after) =~= joined(before).push(e));
        }
        assert(entries.drop_last().push(e) =~= entries);
    }
}

/// Joining two lists of blocks joins their entries.
proof fn lemma_joined_concat(a: Seq<Seq<Pair>>, b: Seq<Seq<Pair>>)
    ensures
        joined(a + b) == joined(a) + joined(b),
    decreases b.len(),
{
    if b.len() == 0 {
        assert(a + b =~= a);
        assert(joined(a) + joined(b) =~= joined(a));
    } else {
        lemma_joined_concat(a, b.drop_last());
        assert((a + b).drop_last() =~= a + b.drop_last());
        assert(joined(a + b) =~= joined(a) + joined(b));
    }
}

/// The entries before block `i`, those of block `i` and those after it.
proof fn lemma_joined_split(blocks: Seq<Seq<Pair>>, i: int)
    requires
        0 <= i < blocks.len(),
    ensures
        joined(blocks) == joined(blocks.take(i)) + (blocks[i] + joined(blocks.skip(i + 1))),
        joined(blocks.take(i + 1)) == joined(blocks.take(i)) + blocks[i],
{
    assert(blocks.take(i + 1).drop_last() =~= blocks.take(i));
    assert(blocks =~= blocks.take(i + 1) + blocks.skip(i + 1));
    lemma_joined_concat(blocks.take(i + 1), blocks.skip(i + 1));
    assert(joined(blocks) =~= joined(blocks.take(i)) + (blocks[i] + joined(blocks.skip(i + 1))));
}

/// The last keys of the blocks ascend as the entries do.
proof fn lemma_last_keys_ascend(blocks: Seq<Seq<Pair>>, i: int, j: int)
    requires
        0 <= i < j < blocks.len(),
        ascending(joined(blocks)),
        forall|k: int| 0 <= k < blocks.len() ==> (#[trigger] blocks[k]).len() > 0,
    ensures
        lex_less(blocks[i].last().0, blocks[j].last().0),
{
    let all = joined(blocks);
    lemma_joined_split(blocks, i);
    lemma_joined_split(blocks, j);
    let p = joined(blocks.take(i + 1)).len() - 1;
    let q = joined(blocks.take(j + 1)).len() - 1;
    assert(all[p] == blocks[i].last());
    assert(all[q] == blocks[j].last());
    assert(blocks.take(j) =~= blocks.take(i + 1) + blocks.subrange(i + 1, j));
    lemma_joined_concat(blocks.take(i + 1), blocks.subrange(i + 1, j));
    assert(p < q);
    assert(lex_less(all[p].0, all[q].0));
}

/// The keys of the directory ascend.
pub proof fn lemma_directory_ascends(blocks: Seq<Seq<Pair>>, interval: nat)
    requires
        ascending(joined(blocks)),
        forall|k: int| 0 <= k < blocks.len() ==> (#[trigger] blocks[k]).len() > 0,
    ensures
        ascending(directory_of(blocks, interval)),
{
    let slots = directory_of(blocks, interval);
    assert forall|i: int, j: int| 0 <= i < j < slots.len() implies lex_less(
        #[trigger] slots[i].0,
        #[trigger] slots[j].0,
    ) by {
        lemma_last_keys_ascend(blocks, i, j);
    }
}

/// A key lies in the first block whose last key is not before it, or nowhere.
proof fn lemma_find_block(blocks: Seq<Seq<Pair>>, key: Seq<u8>, i: int)
    requires
        0 <= i <= blocks.len(),
        ascending(joined(blocks)),
        forall|k: int| 0 <= k < blocks.len() ==> (#[trigger] blocks[k]).len() > 0,
        i > 0 ==> lex_less(blocks[i - 1].last().0, key),
        i < blocks.len() ==> !lex_less(blocks[i].last().0, key),
    ensures
        find(joined(blocks), key) == if i < blocks.len() {
            find(blocks[i], key)
        } else {
            None
        },
{
    let all = joined(blocks);
    let a = joined(blocks.take(i));
    let rest = joined(blocks.skip(i));
    assert(blocks =~= blocks.take(i) + blocks.skip(i));
    lemma_joined_concat(blocks.take(i), blocks.skip(i));
    assert(all == a + rest);
    if i > 0 {
        lemma_joined_split(blocks, i - 1);
        assert(a.last() == blocks[i - 1].last());
    } else {
        assert(blocks.take(0) =~= Seq::empty());
    }
    assert forall|k: int| 0 <= k < a.len() implies #[trigger] a[k].0 != key by {
        let last = a.len() - 1;
        assert(all[k] == a[k] && all[last] == a[last]);
        if k < last {
            assert(lex_less(all[k].0, all[last].0));
            lemma_lex_transitive(all[k].0, all[last].0, key);
        }
        lemma_lex_irreflexive(key);
    }
    lemma_find_absent(a, key);
    lemma_find_concat(a, rest, key);
    if i < blocks.len() {
        let b = blocks[i];
        let c = joined(blocks.skip(i + 1));
        lemma_joined_split(blocks, i);
        assert(all =~= a + (b + c));
        assert(rest =~= b + c) by {
            assert(rest =~= all.skip(a.len() as int));
        }
        assert forall|k: int| 0 <= k < c.len() implies #[trigger] c[k].0 != key by {
            let last = a.len() + b.len() - 1;
            assert(all[last] == b.last());
            assert(all[last + 1 + k] == c[k]);
            assert(lex_less(all[last].0, all[last + 1 + k].0));
            lemma_lex_not_after_then_before(key, b.last().0, c[k].0);
            lemma_lex_irreflexive(key);
        }
        lemma_find_absent(c, key);
        lemma_find_concat(b, c, key);
    } else {
        assert(blocks.skip(i) =~= Seq::empty());
    }
}

/// A block takes at least eight bytes.
proof fn lemma_block_len(block: Seq<Pair>, interval: nat)
    ensures
        block_bytes(block, interval).len() >= 8,
{
    lemma_le_len(len32(restart_offsets(block, interval).len()), 4);
    lemma_le_len(crc32(block_body(block, interval)) as nat, 4);
}

/// Where block `i` lies in the data.
pub proof fn lemma_block_span(blocks: Seq<Seq<Pair>>, interval: nat, i: int)
    requires
        0 <= i < blocks.len(),
    ensures
        block_start(blocks, interval, i + 1) == block_start(blocks, interval, i) + block_bytes(
            blocks[i],
            interval,
        ).len(),
        block_start(blocks, interval, i + 1) <= data_of(blocks, interval).len(),
        data_of(blocks, interval).subrange(
            block_start(blocks, interval, i) as int,
            block_start(blocks, interval, i + 1) as int,
        ) == block_bytes(blocks[i], interval),
    decreases blocks.len(),
{
    let all = data_of(blocks, interval);
    let from = block_start(blocks, interval, i) as int;
    let to = block_start(blocks, interval, i + 1) as int;
    assert(blocks.take(i + 1).drop_last() =~= blocks.take(i));
    if i == blocks.len() - 1 {
        assert(blocks.take(i + 1) =~= blocks);
        assert(all.subrange(from, to) =~= block_bytes(blocks[i], interval));
    } else {
        let fewer = blocks.drop_last();
        lemma_block_span(fewer, interval, i);
        assert(fewer.take(i) =~= blocks.take(i));
        assert(fewer.take(i + 1) =~= blocks.take(i + 1));
        assert(all.subrange(from, to) =~= data_of(fewer, interval).subrange(from, to));
    }
}

/// Later blocks begin later.
proof fn lemma_starts_ascend(blocks: Seq<Seq<Pair>>, interval: nat, i: int, j: int)
    requires
        0 <= i < j <= blocks.len(),
    ensures
        block_start(blocks, interval, i) < block_start(blocks, interval, j) <= data_of(
            blocks,
            interval,
        ).len(),
    decreases j - i,
{
    lemma_block_span(blocks, interval, j - 1);
    lemma_block_len(blocks[j - 1], interval);
    if i < j - 1 {
        lemma_starts_ascend(blocks, interval, i, j - 1);
    }
}

// ---------------------------------------------------------------------------
// Reading
// ---------------------------------------------------------------------------

/// What the lookup in a directory finds: the first slot whose key is not before `key`.
proof fn lemma_at_least_index(slots: Seq<Slot>, key: Seq<u8>) -> (i: int)
    ensures
        0 <= i <= slots.len(),
        forall|j: int| 0 <= j < i ==> lex_less((#[trigger] slots[j]).0, key),
        i < slots.len() ==> !lex_less(slots[i].0, key),
        find_at_least(slots, key) == if i < slots.len() {
            Some(slots[i].1)
        } else {
            None
        },
    decreases slots.len(),
{
    if slots.len() == 0 || !lex_less(slots[0].0, key) {
        0
    } else {
        let rest = slots.drop_first();
        let i = lemma_at_least_index(rest, key) + 1;
        assert forall|j: int| 0 <= j < i implies lex_less((#[trigger] slots[j]).0, key) by {
            if j > 0 {
                assert(slots[j] == rest[j - 1]);
            }
        }
        i
    }
}

/// Where the block of slot `i` ends, if no slot before it has the same offset.
proof fn lemma_block_end(slots: Seq<Slot>, i: int, data_end: u64)
    requires
        0 <= i < slots.len(),
        forall|j: int| 0 <= j < i ==> (#[trigger] slots[j]).1 != slots[i].1,
    ensures
        block_end(slots, slots[i].1, data_end) == if i + 1 < slots.len() {
            slots[i + 1].1
        } else {
            data_end
        },
    decreases i,
{
    if i > 0 {
        let rest = slots.drop_first();
        assert(slots[0].1 != slots[i].1);
        assert forall|j: int| 0 <= j < i - 1 implies (#[trigger] rest[j]).1 != rest[i - 1].1 by {
            assert(rest[j] == slots[j + 1]);
        }
        lemma_block_end(rest, i - 1, data_end);
    }
}

/// The blocks lie at the beginning of a segment, and its directory lists them.
spec fn laid_out(s: SegmentView, blocks: Seq<Seq<Pair>>, interval: nat) -> bool {
    let data = data_of(blocks, interval);
    &&& s.data.len() <= u64::MAX
    &&& data.len() <= s.data.len()
    &&& s.data.take(data.len() as int) == data
    &&& s.meta.footer.data_blocks_length == data.len()
    &&& directory_holds(s.meta.directory, directory_of(blocks, interval))
}

/// A segment consists of blocks that can be read.
spec fn consists_of(s: SegmentView, blocks: Seq<Seq<Pair>>, interval: nat) -> bool {
    &&& laid_out(s, blocks, interval)
    &&& ascending(joined(blocks))
    &&& lengths_fit(joined(blocks))
    &&& forall|i: int| 0 <= i < blocks.len() ==> block_fits(#[trigger] blocks[i], interval)
}

/// The blocks of a segment are found at their offsets.
proof fn lemma_block_at(s: SegmentView, blocks: Seq<Seq<Pair>>, interval: nat, i: int)
    requires
        laid_out(s, blocks, interval),
        0 <= i < blocks.len(),
    ensures
        block_range(s.meta, directory_of(blocks, interval)[i].1) == Some(
            (
                block_start(blocks, interval, i) as u64,
                block_start(blocks, interval, i + 1) as u64,
            ),
        ),
        block_start(blocks, interval, i) < block_start(blocks, interval, i + 1) <= s.data.len(),
        s.data.subrange(
            block_start(blocks, interval, i) as int,
            block_start(blocks, interval, i + 1) as int,
        ) == block_bytes(blocks[i], interval),
        block_at(s, directory_of(blocks, interval)[i].1) == Ok::<Seq<u8>, Fault>(
            block_bytes(blocks[i], interval),
        ),
{
    let slots = directory_of(blocks, interval);
    let data = data_of(blocks, interval);
    let n = blocks.len() as int;
    let data_end = s.meta.footer.data_blocks_length;
    lemma_block_span(blocks, interval, i);
    lemma_starts_ascend(blocks, interval, i, n);
    lemma_starts_ascend(blocks, interval, i, i + 1);
    assert(blocks.take(n) =~= blocks);
    assert(slots[i].1 == block_start(blocks, interval, i));
    assert forall|j: int| 0 <= j < i implies (#[trigger] slots[j]).1 != slots[i].1 by {
        lemma_starts_ascend(blocks, interval, j, i);
    }
    lemma_block_end(slots, i, data_end);
    let from = block_start(blocks, interval, i) as int;
    let to = block_start(blocks, interval, i + 1) as int;
    if i + 1 < n {
        lemma_starts_ascend(blocks, interval, i + 1, n);
        assert(slots[i + 1].1 == to);
    }
    assert(s.data.subrange(from, to) =~= s.data.take(data.len() as int).subrange(from, to));
}

/// The entries of one block among those of all.
proof fn lemma_block_sorted(blocks: Seq<Seq<Pair>>, i: int)
    requires
        0 <= i < blocks.len(),
        ascending(joined(blocks)),
        lengths_fit(joined(blocks)),
    ensures
        ascending(blocks[i]),
        lengths_fit(blocks[i]),
{
    let all = joined(blocks);
    let from = joined(blocks.take(i)).len() as int;
    let b = blocks[i];
    lemma_joined_split(blocks, i);
    assert forall|j: int, k: int| 0 <= j < k < b.len() implies lex_less(
        #[trigger] b[j].0,
        #[trigger] b[k].0,
    ) by {
        assert(b[j] == all[from + j]);
        assert(b[k] == all[from + k]);
    }
    assert forall|j: int| 0 <= j < b.len() implies (#[trigger] b[j]).0.len() < 0x1_0000_0000
        && b[j].1.len() < 0x1_0000_0000 by {
        assert(b[j] == all[from + j]);
    }
}

/// Looking a key up in a segment.
proof fn lemma_segment_get(s: SegmentView, blocks: Seq<Seq<Pair>>, interval: nat, key: Seq<u8>)
    requires
        consists_of(s, blocks, interval),
        find(joined(blocks), key) is Some ==> filter_admits(s.meta.filter, key),
    ensures
        segment_get(s, key) == Ok::<Option<Seq<u8>>, Fault>(find(joined(blocks), key)),
{
    reveal(segment_get);
    let slots = directory_of(blocks, interval);
    if filter_admits(s.meta.filter, key) {
        let i = lemma_at_least_index(slots, key);
        assert(fst_at_least(s.meta.directory, key) == find_at_least(slots, key));
        assert(i > 0 ==> slots[i - 1].0 == blocks[i - 1].last().0);
        assert(i < slots.len() ==> slots[i].0 == blocks[i].last().0);
        assert forall|k: int| 0 <= k < blocks.len() implies (#[trigger] blocks[k]).len() > 0 by {
            assert(block_fits(blocks[k], interval));
        }
        lemma_find_block(blocks, key, i);
        if i < blocks.len() {
            lemma_block_at(s, blocks, interval, i);
            lemma_block_sorted(blocks, i);
            assert(block_fits(blocks[i], interval));
            law_block_get(blocks[i], interval, key);
        }
    }
}

/// Iterating over a segment.
proof fn lemma_entries_in(s: SegmentView, blocks: Seq<Seq<Pair>>, interval: nat, n: int)
    requires
        consists_of(s, blocks, interval),
        0 <= n <= blocks.len(),
    ensures
        entries_in(s, directory_of(blocks, interval).take(n)) == Ok::<Seq<Pair>, Fault>(
            joined(blocks.take(n)),
        ),
    decreases n,
{
    let slots = directory_of(blocks, interval);
    if n > 0 {
        lemma_entries_in(s, blocks, interval, n - 1);
        assert(slots.take(n).drop_last() =~= slots.take(n - 1));
        assert(blocks.take(n).drop_last() =~= blocks.take(n - 1));
        lemma_block_at(s, blocks, interval, n - 1);
        lemma_block_sorted(blocks, n - 1);
        assert(block_fits(blocks[n - 1], interval));
        law_block_entries(blocks[n - 1], interval);
    }
}

/// What a segment put together from its sections looks like when it is opened.
pub proof fn lemma_open_assembled(data: Seq<u8>, filter: Seq<u8>, directory: Seq<u8>, keys: nat)
    requires
        assembled(data, filter, directory, keys).len() <= u64::MAX,
        directory_valid(directory),
    ensures
        open_segment(assembled(data, filter, directory, keys)) == Ok::<SegmentView, Fault>(
            SegmentView {
                data: assembled(data, filter, directory, keys),
                meta: MetadataView {
                    footer: Footer {
                        checksum: crc32(footer_head(footer_of(data, filter, directory, keys))),
                        ..footer_of(data, filter, directory, keys)
                    },
                    directory,
                    filter,
                },
            },
        ),
{
    reveal(open_segment);
    let all = assembled(data, filter, directory, keys);
    let f = footer_of(data, filter, directory, keys);
    lemma_footer_len(f);
    law_footer_round_trip(f);
    assert(all.skip(all.len() - 64) =~= footer_bytes(f));
    let (d, b) = (data.len() as int, filter.len() as int);
    assert(all.subrange(d, d + b) =~= filter);
    assert(all.subrange(d + b, d + b + directory.len()) =~= directory);
    if b == 0 {
        assert(filter =~= Seq::empty());
    }
}

/// A segment put together from the blocks of its entries, their filter and their directory is the
/// one that was written from them.
pub proof fn lemma_segment_written(entries: Seq<Pair>, opts: SegmentWriterOptions)
    requires
        ascending(entries),
        entries.len() <= u32::MAX,
        forall|i: int|
            0 <= i < written_blocks(entries, opts).len() ==> block_fits(
                #[trigger] written_blocks(entries, opts)[i],
                opts.interval(),
            ),
        directory_holds(
            sections_of(entries, opts).2,
            directory_of(written_blocks(entries, opts), opts.interval()),
        ),
        built(sections_of(entries, opts).2),
        forall|i: int|
            0 <= i < entries.len() ==> filter_admits(
                sections_of(entries, opts).1,
                (#[trigger] entries[i]).0,
            ),
        segment_bytes(entries, opts).len() <= u64::MAX,
    ensures
        segment_written(segment_bytes(entries, opts), entries, opts),
{
    reveal(segment_bytes);
    reveal(metadata_of);
    let interval = opts.interval();
    let limit = opts.block_size as nat;
    let blocks = written_blocks(entries, opts);
    let (data, filter, directory) = sections_of(entries, opts);
    let all = segment_bytes(entries, opts);
    lemma_blocks(entries, interval, limit);
    lemma_open_assembled(data, filter, directory, entries.len());
    let s = open_segment(all)->Ok_0;
    assert(s.meta == metadata_of(entries, opts));
    assert(segment_genuine(all)) by {
        reveal(segment_genuine);
        reveal(open_segment);
    }
    assert(all.take(data.len() as int) =~= data);
    if lengths_fit(entries) {
        assert(consists_of(s, blocks, interval));
        assert forall|key: Seq<u8>| #[trigger]
            segment_get(s, key) == Ok::<Option<Seq<u8>>, Fault>(find(entries, key)) by {
            if find(entries, key) is Some {
                let i = lemma_find_present(entries, key);
                assert(filter_admits(filter, entries[i].0));
            }
            lemma_segment_get(s, blocks, interval, key);
        }
        let n = blocks.len() as int;
        lemma_entries_in(s, blocks, interval, n);
        assert(blocks.take(n) =~= blocks);
        assert(directory_of(blocks, interval).take(n) =~= directory_of(blocks, interval));
        assert(segment_entries(s) == Ok::<Seq<Pair>, Fault>(entries)) by {
            reveal(segment_entries);
        }
    }
}

// ---------------------------------------------------------------------------
// Reading stored segments
// ---------------------------------------------------------------------------

/// Opening a segment by its end, from `from` on, agrees with opening the whole of it, error for
/// error, if the end reaches back to where the footer says that filter and directory are.
pub proof fn law_tail_agrees(data: Seq<u8>, from: int)
    requires
        data.len() <= u64::MAX,
        0 <= from <= data.len() - 64,
        load_footer(data) matches Ok(f) ==> from <= f.bloom_offset && from <= f.fst_offset,
    ensures
        open_tail(data.skip(from), data.len() as u64) == match open_segment(data) {
            Ok(s) => Ok(s.meta),
            Err(fault) => Err(fault),
        },
{
    reveal(open_segment);
    let tail = data.skip(from);
    assert(tail.skip(tail.len() - 64) =~= data.skip(data.len() - 64));
    if let Ok(f) = load_footer(data) {
        if sections_fault(f, data.len() as u64) is None {
            let (b, d) = (f.bloom_offset as int, f.fst_offset as int);
            if f.bloom_length > 0 {
                assert(tail.subrange(b - from, b - from + f.bloom_length) =~= data.subrange(
                    b,
                    b + f.bloom_length,
                ));
            }
            assert(tail.subrange(d - from, d - from + f.fst_length) =~= data.subrange(
                d,
                d + f.fst_length,
            ));
        }
    }
}

/// The end of a segment, from `from` on, is enough for its metadata if it reaches back to filter
/// and directory: they are then the same as those of the whole segment.
pub proof fn law_tail_suffices(data: Seq<u8>, from: int)
    requires
        data.len() <= u64::MAX,
        open_segment(data) is Ok,
        0 <= from <= data.len() - 64,
        from <= open_segment(data)->Ok_0.meta.footer.bloom_offset,
        from <= open_segment(data)->Ok_0.meta.footer.fst_offset,
    ensures
        open_tail(data.skip(from), data.len() as u64) == Ok::<MetadataView, Fault>(
            open_segment(data)->Ok_0.meta,
        ),
{
    reveal(open_segment);
    law_tail_agrees(data, from);
}

/// If the end of a segment does not reach back to the filter, the error says how many bytes do,
/// and that many give the metadata (provided that the directory does not come before the filter).
pub proof fn law_tail_too_small(data: Seq<u8>, from: int)
    requires
        data.len() <= usize::MAX,
        open_segment(data) is Ok,
        0 <= from <= data.len() - 64,
        from > open_segment(data)->Ok_0.meta.footer.bloom_offset,
        open_segment(data)->Ok_0.meta.footer.bloom_offset
            <= open_segment(data)->Ok_0.meta.footer.fst_offset,
    ensures
        open_tail(data.skip(from), data.len() as u64) == Err::<MetadataView, Fault>(
            Fault::TailTooSmall {
                needed: (data.len() - open_segment(data)->Ok_0.meta.footer.bloom_offset) as usize,
                got: (data.len() - from) as usize,
            },
        ),
        open_tail(
            data.skip(open_segment(data)->Ok_0.meta.footer.bloom_offset as int),
            data.len() as u64,
        ) == Ok::<MetadataView, Fault>(open_segment(data)->Ok_0.meta),
{
    reveal(open_segment);
    let f = open_segment(data)->Ok_0.meta.footer;
    let tail = data.skip(from);
    assert(tail.skip(tail.len() - 64) =~= data.skip(data.len() - 64));
    law_tail_suffices(data, f.bloom_offset as int);
}

/// What may be opened as a whole may be opened by its end.
pub proof fn law_genuine_tail(data: Seq<u8>, from: int)
    requires
        data.len() <= u64::MAX,
        segment_genuine(data),
        0 <= from <= data.len() - 64,
    ensures
        tail_genuine(data.skip(from), data.len() as u64),
{
    reveal(segment_genuine);
    reveal(tail_genuine);
    let tail = data.skip(from);
    let base = from as u64;
    assert(tail.skip(tail.len() - 64) =~= data.skip(data.len() - 64));
    if let Ok(f) = load_footer(tail) {
        if f.fst_offset >= base && sections_fault(f, data.len() as u64) is None {
            assert(directory_in(tail, base, f) =~= directory_in(data, 0, f));
        }
    }
}

/// The footer of a finished segment.
pub proof fn lemma_written_footer(data: Seq<u8>, entries: Seq<Pair>, opts: SegmentWriterOptions)
    requires
        data.len() <= u64::MAX,
        segment_written(data, entries, opts),
    ensures
        ({
            let f = metadata_of(entries, opts).footer;
            &&& f.data_blocks_offset == 0
            &&& f.data_blocks_length == data_of(
                written_blocks(entries, opts),
                opts.interval(),
            ).len()
            &&& data.take(f.data_blocks_length as int) == data_of(
                written_blocks(entries, opts),
                opts.interval(),
            )
            &&& f.bloom_offset == f.data_blocks_length
            &&& f.fst_offset == f.bloom_offset + f.bloom_length
            &&& f.fst_offset + f.fst_length + 64 == data.len()
        }),
{
    reveal(metadata_of);
    reveal(segment_bytes);
    let (blocks, filter, directory) = sections_of(entries, opts);
    lemma_footer_len(footer_of(blocks, filter, directory, entries.len()));
    assert(data.take(blocks.len() as int) =~= blocks);
}

/// Of a finished segment, every end that reaches back to the filter gives the same metadata, and
/// every shorter one the error that says how many bytes do.
pub proof fn law_tail_of_written(
    data: Seq<u8>,
    entries: Seq<Pair>,
    opts: SegmentWriterOptions,
    len: nat,
)
    requires
        data.len() <= usize::MAX,
        segment_written(data, entries, opts),
        64 <= len <= data.len(),
    ensures
        ({
            let meta = metadata_of(entries, opts);
            let needed = data.len() - meta.footer.bloom_offset;
            open_tail(data.skip(data.len() - len), data.len() as u64) == if len < needed {
                Err::<MetadataView, Fault>(
                    Fault::TailTooSmall { needed: needed as usize, got: len as usize },
                )
            } else {
                Ok(meta)
            }
        }),
{
    let from = data.len() - len;
    let f = metadata_of(entries, opts).footer;
    lemma_written_footer(data, entries, opts);
    if from > f.bloom_offset {
        law_tail_too_small(data, from);
    } else {
        law_tail_suffices(data, from);
    }
}

/// Looking a key up in two steps, first in the metadata and then in the one block that they call
/// for, gives the same as looking it up in the whole segment.
pub proof fn law_two_step_lookup(s: SegmentView, key: Seq<u8>)
    ensures
        match plan_of(s.meta, key) {
            LookupPlan::Absent => segment_get(s, key) == Ok::<Option<Seq<u8>>, Fault>(None),
            LookupPlan::Block { start, end } => end <= s.data.len() ==> segment_get(s, key)
                == block_lookup(s.data.subrange(start as int, end as int), key),
            LookupPlan::Invalid { offset } => segment_get(s, key) == Err::<
                Option<Seq<u8>>,
                Fault,
            >(Fault::InvalidBlockOffset(offset)),
        },
{
    reveal(segment_get);
}

/// What a lookup in a finished segment has to read: nothing for a key after all keys, and otherwise
/// at most one whole block, never an offset at which there is none.
pub proof fn law_plan_of_written(
    data: Seq<u8>,
    entries: Seq<Pair>,
    opts: SegmentWriterOptions,
    key: Seq<u8>,
)
    requires
        data.len() <= u64::MAX,
        segment_written(data, entries, opts),
    ensures
        entries.len() == 0 || lex_less(entries.last().0, key) ==> plan_of(
            metadata_of(entries, opts),
            key,
        ) == LookupPlan::Absent,
        match plan_of(metadata_of(entries, opts), key) {
            LookupPlan::Absent => true,
            LookupPlan::Block { start, end } => whole_block(
                data,
                written_blocks(entries, opts),
                opts.interval(),
                start,
                end,
            ),
            LookupPlan::Invalid { .. } => false,
        },
{
    let interval = opts.interval();
    let s = SegmentView { data, meta: metadata_of(entries, opts) };
    lemma_written_footer(data, entries, opts);
    lemma_blocks(entries, interval, opts.block_size as nat);
    lemma_plan(s, written_blocks(entries, opts), entries, interval, key);
}

/// What a lookup in blocks has to read.
proof fn lemma_plan(
    s: SegmentView,
    blocks: Seq<Seq<Pair>>,
    entries: Seq<Pair>,
    interval: nat,
    key: Seq<u8>,
)
    requires
        laid_out(s, blocks, interval),
        joined(blocks) == entries,
        ascending(entries),
        forall|k: int| 0 <= k < blocks.len() ==> (#[trigger] blocks[k]).len() > 0,
    ensures
        entries.len() == 0 || lex_less(entries.last().0, key) ==> plan_of(s.meta, key)
            == LookupPlan::Absent,
        match plan_of(s.meta, key) {
            LookupPlan::Absent => true,
            LookupPlan::Block { start, end } => whole_block(s.data, blocks, interval, start, end),
            LookupPlan::Invalid { .. } => false,
        },
{
    let slots = directory_of(blocks, interval);
    let i = lemma_at_least_index(slots, key);
    assert(fst_at_least(s.meta.directory, key) == find_at_least(slots, key));
    if i < slots.len() {
        lemma_block_at(s, blocks, interval, i);
        let (start, end) = block_range(s.meta, slots[i].1)->Some_0;
        assert(is_block(s.data, blocks, interval, i, start, end));
        assert(whole_block(s.data, blocks, interval, start, end));
        let last = blocks.len() - 1;
        lemma_joined_split(blocks, last);
        assert(blocks.take(last + 1) =~= blocks);
        assert(entries.last() == blocks[last].last());
        if lex_less(entries.last().0, key) {
            lemma_blocks_before(blocks, entries, key, i);
        }
    }
}

/// The last key of a block is not after the last key of all.
proof fn lemma_blocks_before(
    blocks: Seq<Seq<Pair>>,
    entries: Seq<Pair>,
    key: Seq<u8>,
    i: int,
)
    requires
        joined(blocks) == entries,
        ascending(entries),
        0 <= i < blocks.len(),
        forall|k: int| 0 <= k < blocks.len() ==> (#[trigger] blocks[k]).len() > 0,
        lex_less(blocks[blocks.len() - 1].last().0, key),
    ensures
        lex_less(blocks[i].last().0, key),
{
    let last = blocks.len() - 1;
    if i < last {
        lemma_last_keys_ascend(blocks, i, last);
        lemma_lex_transitive(blocks[i].last().0, blocks[last].last().0, key);
    }
}

/// `start` to `end` is block `i` of a segment, whole.
pub open spec fn is_block(
    data: Seq<u8>,
    blocks: Seq<Seq<Pair>>,
    interval: nat,
    i: int,
    start: u64,
    end: u64,
) -> bool {
    &&& 0 <= i < blocks.len()
    &&& start == block_start(blocks, interval, i)
    &&& end == block_start(blocks, interval, i + 1)
    &&& start < end <= data.len()
    &&& data.subrange(start as int, end as int) == block_bytes(blocks[i], interval)
}

/// `start` to `end` is one of the blocks of a segment, whole.
pub open spec fn whole_block(
    data: Seq<u8>,
    blocks: Seq<Seq<Pair>>,
    interval: nat,
    start: u64,
    end: u64,
) -> bool {
    exists|i: int| #[trigger] is_block(data, blocks, interval, i, start, end)
}

/// Looking a key up in a stored segment, with the metadata read from its end and one block read
/// where they say, gives what the segment's entries hold under the key. Nothing is read for a key
/// after all keys; what is read is one whole block.
pub proof fn law_stored_lookup(
    data: Seq<u8>,
    entries: Seq<Pair>,
    opts: SegmentWriterOptions,
    len: nat,
    key: Seq<u8>,
)
    requires
        data.len() <= usize::MAX,
        segment_written(data, entries, opts),
        lengths_fit(entries),
        64 <= len <= data.len(),
        len >= data.len() - metadata_of(entries, opts).footer.bloom_offset,
    ensures
        open_tail(data.skip(data.len() - len), data.len() as u64) == Ok::<MetadataView, Fault>(
            metadata_of(entries, opts),
        ),
        entries.len() == 0 || lex_less(entries.last().0, key) ==> plan_of(
            metadata_of(entries, opts),
            key,
        ) == LookupPlan::Absent,
        match plan_of(metadata_of(entries, opts), key) {
            LookupPlan::Absent => find(entries, key) is None,
            LookupPlan::Block { start, end } => {
                &&& whole_block(
                data,
                written_blocks(entries, opts),
                opts.interval(),
                start,
                end,
            )
                &&& block_lookup(data.subrange(start as int, end as int), key) == Ok::<
                    Option<Seq<u8>>,
                    Fault,
                >(find(entries, key))
            },
            LookupPlan::Invalid { .. } => false,
        },
{
    let s = open_segment(data)->Ok_0;
    law_tail_of_written(data, entries, opts, len);
    law_plan_of_written(data, entries, opts, key);
    law_two_step_lookup(s, key);
    assert(segment_get(s, key) == Ok::<Option<Seq<u8>>, Fault>(find(entries, key)));
}

/// The filter of a segment never rejects a key that the segment holds.
pub proof fn law_no_false_negatives(data: Seq<u8>, entries: Seq<Pair>, i: int)
    requires
        segment_holds(data, entries),
        ascending(entries),
        0 <= i < entries.len(),
    ensures
        filter_admits(open_segment(data)->Ok_0.meta.filter, entries[i].0),
{
    reveal(segment_get);
    let s = open_segment(data)->Ok_0;
    crate::order::lemma_find_sorted(entries, i);
    assert(segment_get(s, entries[i].0) == Ok::<Option<Seq<u8>>, Fault>(
        find(entries, entries[i].0),
    ));
}

// ---------------------------------------------------------------------------
// Damage
// ---------------------------------------------------------------------------

/// What opening a finished segment gives once exactly one byte of it was changed. In the directory
/// or the footer the change is noticed. In the filter it is not, and in the data blocks not yet.
pub proof fn law_damaged_segment(
    data: Seq<u8>,
    entries: Seq<Pair>,
    opts: SegmentWriterOptions,
    i: int,
    b: u8,
)
    requires
        data.len() <= u64::MAX,
        segment_written(data, entries, opts),
        0 <= i < data.len(),
        b != data[i],
    ensures
        segment_genuine(data.update(i, b)),
        open_segment(data.update(i, b)) == damaged(data, metadata_of(entries, opts), i, b),
{
    reveal(open_segment);
    reveal(segment_genuine);
    let other = data.update(i, b);
    let meta = metadata_of(entries, opts);
    let f = meta.footer;
    let n = data.len() as int;
    lemma_written_footer(data, entries, opts);
    let tail = data.skip(n - 64);
    assert(parse_footer(tail) == Ok::<Footer, FormatError>(f));
    if i >= n - 64 {
        assert(other.skip(n - 64) =~= tail.update(i - (n - 64), b));
        law_footer_damage(tail, i - (n - 64), b);
    } else {
        assert(other.skip(n - 64) =~= tail);
        let (from, to) = (f.fst_offset as int, f.fst_offset + f.fst_length);
        if from <= i {
            assert(other.subrange(from, to) =~= meta.directory.update(i - from, b));
            law_directory_damage(meta.directory, i - from, b);
        } else {
            assert(other.subrange(from, to) =~= meta.directory);
            let (from, to) = (f.bloom_offset as int, f.bloom_offset + f.bloom_length);
            if from <= i {
                assert(other.subrange(from, to) =~= meta.filter.update(i - from, b));
            } else if f.bloom_length > 0 {
                assert(other.subrange(from, to) =~= meta.filter);
            }
        }
    }
}

/// What opening a segment with the metadata `meta` gives once its byte `i` was changed to `b`.
pub open spec fn damaged(data: Seq<u8>, meta: MetadataView, i: int, b: u8) -> Result<
    SegmentView,
    Fault,
> {
    let other = data.update(i, b);
    let footer = data.len() - 64;
    if i < meta.footer.bloom_offset {
        Ok(SegmentView { data: other, meta })
    } else if i < meta.footer.fst_offset {
        let filter = meta.filter.update(i - meta.footer.bloom_offset, b);
        Ok(SegmentView { data: other, meta: MetadataView { filter, ..meta } })
    } else if i < footer {
        Err(Fault::FstError("FST error"@))
    } else if i < footer + 4 {
        Err(Fault::Format(FormatError::InvalidMagic))
    } else if i < footer + 6 {
        Err(
            Fault::Format(
                FormatError::UnsupportedVersion(
                    le_value(other.skip(footer).subrange(4, 6)) as u16,
                ),
            ),
        )
    } else {
        Err(
            Fault::Format(
                FormatError::ChecksumMismatch {
                    stored: le_value(other.skip(footer).subrange(60, 64)) as u32,
                    computed: crc32(other.skip(footer).subrange(0, 60)),
                },
            ),
        )
    }
}

/// Opening by its end a finished segment of which exactly one byte was changed agrees with opening
/// the whole of it.
pub proof fn law_damaged_tail(
    data: Seq<u8>,
    entries: Seq<Pair>,
    opts: SegmentWriterOptions,
    i: int,
    b: u8,
    len: nat,
)
    requires
        data.len() <= usize::MAX,
        segment_written(data, entries, opts),
        0 <= i < data.len(),
        b != data[i],
        64 <= len <= data.len(),
        len >= data.len() - metadata_of(entries, opts).footer.bloom_offset,
    ensures
        tail_genuine(data.update(i, b).skip(data.len() - len), data.len() as u64),
        open_tail(data.update(i, b).skip(data.len() - len), data.len() as u64) == match damaged(
            data,
            metadata_of(entries, opts),
            i,
            b,
        ) {
            Ok(s) => Ok(s.meta),
            Err(fault) => Err(fault),
        },
{
    let other = data.update(i, b);
    let n = data.len() as int;
    let tail = data.skip(n - 64);
    law_damaged_segment(data, entries, opts, i, b);
    law_genuine_tail(other, n - len);
    lemma_written_footer(data, entries, opts);
    assert(load_footer(other) matches Ok(f) ==> f == metadata_of(entries, opts).footer) by {
        reveal(open_segment);
        if i >= n - 64 {
            assert(other.skip(n - 64) =~= tail.update(i - (n - 64), b));
            law_footer_damage(tail, i - (n - 64), b);
        } else {
            assert(other.skip(n - 64) =~= tail);
        }
    }
    law_tail_agrees(other, n - len);
}

/// A lookup in a finished segment of which exactly one byte in the data blocks was changed says
/// that the checksum does not match, if it reads the block with that byte, and otherwise gives what
/// it gave before.
pub proof fn law_damaged_lookup(
    data: Seq<u8>,
    entries: Seq<Pair>,
    opts: SegmentWriterOptions,
    i: int,
    b: u8,
    key: Seq<u8>,
)
    requires
        data.len() <= u64::MAX,
        segment_written(data, entries, opts),
        0 <= i < metadata_of(entries, opts).footer.data_blocks_length,
        b != data[i],
    ensures
        ({
            let meta = metadata_of(entries, opts);
            let s = SegmentView { data, meta };
            let other = SegmentView { data: data.update(i, b), meta };
            segment_get(other, key) == match plan_of(meta, key) {
                LookupPlan::Block { start, end } => if start <= i < end {
                    Err(Fault::Block(BlockError::ChecksumMismatch))
                } else {
                    segment_get(s, key)
                },
                _ => segment_get(s, key),
            }
        }),
{
    let s = SegmentView { data, meta: metadata_of(entries, opts) };
    lemma_written_footer(data, entries, opts);
    law_plan_of_written(data, entries, opts, key);
    lemma_damaged_lookup(s, written_blocks(entries, opts), opts.interval(), i, b, key);
}

proof fn lemma_damaged_lookup(
    s: SegmentView,
    blocks: Seq<Seq<Pair>>,
    interval: nat,
    i: int,
    b: u8,
    key: Seq<u8>,
)
    requires
        0 <= i < s.data.len(),
        b != s.data[i],
        plan_of(s.meta, key) matches LookupPlan::Block { start, end } ==> whole_block(
            s.data,
            blocks,
            interval,
            start,
            end,
        ),
    ensures
        segment_get(SegmentView { data: s.data.update(i, b), ..s }, key) == match plan_of(
            s.meta,
            key,
        ) {
            LookupPlan::Block { start, end } => if start <= i < end {
                Err(Fault::Block(BlockError::ChecksumMismatch))
            } else {
                segment_get(s, key)
            },
            _ => segment_get(s, key),
        },
{
    let other = SegmentView { data: s.data.update(i, b), ..s };
    law_two_step_lookup(s, key);
    law_two_step_lookup(other, key);
    if let LookupPlan::Block { start, end } = plan_of(s.meta, key) {
        let k = choose|k: int| #[trigger] is_block(s.data, blocks, interval, k, start, end);
        let (x, y) = (start as int, end as int);
        if x <= i < y {
            assert(other.data.subrange(x, y) =~= s.data.subrange(x, y).update(i - x, b));
            law_finished_block_damage(blocks[k], interval, i - x, b);
        } else {
            assert(other.data.subrange(x, y) =~= s.data.subrange(x, y));
        }
    }
}

/// Faults among the first slots are faults of all.
pub proof fn lemma_entries_fault(s: SegmentView, slots: Seq<Slot>, n: int)
    requires
        0 <= n <= slots.len(),
        entries_in(s, slots.take(n)) is Err,
    ensures
        entries_in(s, slots) == entries_in(s, slots.take(n)),
    decreases slots.len(),
{
    if n == slots.len() {
        assert(slots.take(n) =~= slots);
    } else {
        assert(slots.drop_last().take(n) =~= slots.take(n));
        lemma_entries_fault(s, slots.drop_last(), n);
    }
}

/// Segments with the same blocks have the same entries.
proof fn lemma_entries_same(s: SegmentView, other: SegmentView, slots: Seq<Slot>)
    requires
        forall|j: int|
            0 <= j < slots.len() ==> block_at(s, (#[trigger] slots[j]).1) == block_at(
                other,
                slots[j].1,
            ),
    ensures
        entries_in(s, slots) == entries_in(other, slots),
    decreases slots.len(),
{
    if slots.len() > 0 {
        let fewer = slots.drop_last();
        assert forall|j: int| 0 <= j < fewer.len() implies block_at(s, (#[trigger] fewer[j]).1)
            == block_at(other, fewer[j].1) by {
            assert(fewer[j] == slots[j]);
        }
        lemma_entries_same(s, other, fewer);
        assert(slots.last() == slots[slots.len() - 1]);
    }
}

/// The block that a byte lies in.
proof fn lemma_block_around(blocks: Seq<Seq<Pair>>, interval: nat, i: int, n: int) -> (k: int)
    requires
        0 <= n <= blocks.len(),
        0 <= i < block_start(blocks, interval, n),
    ensures
        0 <= k < n,
        block_start(blocks, interval, k) <= i < block_start(blocks, interval, k + 1),
    decreases n,
{
    if n == 0 {
        assert(blocks.take(0) =~= Seq::empty());
        assert(data_of(blocks.take(0), interval).len() == 0);
        0
    } else if i < block_start(blocks, interval, n - 1) {
        lemma_block_around(blocks, interval, i, n - 1)
    } else {
        n - 1
    }
}

/// Iterating over a finished segment of which exactly one byte in the data blocks was changed says
/// that a checksum does not match.
pub proof fn law_damaged_iteration(
    data: Seq<u8>,
    entries: Seq<Pair>,
    opts: SegmentWriterOptions,
    i: int,
    b: u8,
)
    requires
        data.len() <= u64::MAX,
        segment_written(data, entries, opts),
        lengths_fit(entries),
        0 <= i < metadata_of(entries, opts).footer.data_blocks_length,
        b != data[i],
    ensures
        segment_entries(
            SegmentView { data: data.update(i, b), meta: metadata_of(entries, opts) },
        ) == Err::<Seq<Pair>, Fault>(Fault::Block(BlockError::ChecksumMismatch)),
{
    let interval = opts.interval();
    let blocks = written_blocks(entries, opts);
    let s = SegmentView { data, meta: metadata_of(entries, opts) };
    lemma_written_footer(data, entries, opts);
    assert(laid_out(s, blocks, interval));
    assert(segment_entries(s) is Ok);
    lemma_damaged_iteration(s, blocks, interval, i, b);
}

proof fn lemma_damaged_iteration(
    s: SegmentView,
    blocks: Seq<Seq<Pair>>,
    interval: nat,
    i: int,
    b: u8,
)
    requires
        laid_out(s, blocks, interval),
        segment_entries(s) is Ok,
        0 <= i < data_of(blocks, interval).len(),
        b != s.data[i],
    ensures
        segment_entries(SegmentView { data: s.data.update(i, b), ..s }) == Err::<
            Seq<Pair>,
            Fault,
        >(Fault::Block(BlockError::ChecksumMismatch)),
{
    reveal(segment_entries);
    let slots = directory_of(blocks, interval);
    let other = SegmentView { data: s.data.update(i, b), ..s };
    let n = blocks.len() as int;
    assert(blocks.take(n) =~= blocks);
    let k = lemma_block_around(blocks, interval, i, n);
    assert forall|j: int| 0 <= j < slots.take(k).len() implies block_at(
        s,
        (#[trigger] slots.take(k)[j]).1,
    ) == block_at(other, slots.take(k)[j].1) by {
        lemma_block_outside(s, blocks, interval, i, b, j, k);
    }
    lemma_entries_same(s, other, slots.take(k));
    if entries_in(s, slots.take(k)) is Err {
        lemma_entries_fault(s, slots, k);
    }
    lemma_block_inside(s, blocks, interval, i, b, k);
    assert(slots.take(k + 1).drop_last() =~= slots.take(k));
    assert(slots.take(k + 1).last() == slots[k]);
    lemma_entries_fault(other, slots, k + 1);
}

/// A change in block `k` leaves the blocks before it alone.
proof fn lemma_block_outside(
    s: SegmentView,
    blocks: Seq<Seq<Pair>>,
    interval: nat,
    i: int,
    b: u8,
    j: int,
    k: int,
)
    requires
        laid_out(s, blocks, interval),
        0 <= j < k < blocks.len(),
        block_start(blocks, interval, k) <= i < s.data.len(),
    ensures
        block_at(s, directory_of(blocks, interval)[j].1) == block_at(
            SegmentView { data: s.data.update(i, b), ..s },
            directory_of(blocks, interval)[j].1,
        ),
{
    lemma_block_at(s, blocks, interval, j);
    if j + 1 < k {
        lemma_starts_ascend(blocks, interval, j + 1, k);
    }
    let x = block_start(blocks, interval, j) as int;
    let y = block_start(blocks, interval, j + 1) as int;
    assert(s.data.update(i, b).subrange(x, y) =~= s.data.subrange(x, y));
}

/// A change in block `k` is noticed when the block is read.
proof fn lemma_block_inside(
    s: SegmentView,
    blocks: Seq<Seq<Pair>>,
    interval: nat,
    i: int,
    b: u8,
    k: int,
)
    requires
        laid_out(s, blocks, interval),
        0 <= k < blocks.len(),
        block_start(blocks, interval, k) <= i < block_start(blocks, interval, k + 1),
        b != s.data[i],
    ensures
        entries_at(
            SegmentView { data: s.data.update(i, b), ..s },
            directory_of(blocks, interval)[k].1,
        ) == Err::<Seq<Pair>, Fault>(Fault::Block(BlockError::ChecksumMismatch)),
{
    lemma_block_at(s, blocks, interval, k);
    let x = block_start(blocks, interval, k) as int;
    let y = block_start(blocks, interval, k + 1) as int;
    let block = block_bytes(blocks[k], interval);
    assert(s.data.subrange(x, y)[i - x] == s.data[i]);
    assert(s.data.update(i, b).subrange(x, y) =~= block.update(i - x, b));
    law_finished_block_damage(blocks[k], interval, i - x, b);
}

} // verus!
