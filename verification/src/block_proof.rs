//! Reading a block gives back the entries it was written from.

use vstd::prelude::*;
use crate::block::BlockError;
use crate::block_model::{
    block_body, block_bytes, block_entries, block_get, block_size, entries_bytes, entry_bytes,
    entry_offset, has_room, lemma_step_advances, len32, offsets_bytes, open_block, read_entries,
    read_lengths, read_step, restart_indices, restart_key, restart_offsets, scan, search, shared_at,
    truncated, BlockView, EntryStep,
};
use crate::bytes::{
    le_bytes, le_value, lemma_le_bounded, lemma_le_bounds, lemma_le_injective, lemma_le_len,
    lemma_le_round_trip,
};
use crate::checksum::{crc32, law_crc32_differs};
use crate::order::{
    ascending, find, lemma_find_absent, lemma_find_within, lemma_lex_asymmetric,
    lemma_lex_irreflexive, lemma_lex_total, lemma_lex_transitive, lemma_shared_prefix, lex_less,
    shared_prefix, Pair,
};
use crate::varint::{lemma_varint_len, lemma_varint_round_trip, parse_varint, varint};

verus! {

/// Every key and value has a length that the format can store.
pub open spec fn lengths_fit(entries: Seq<Pair>) -> bool {
    forall|i: int|
        0 <= i < entries.len() ==> (#[trigger] entries[i]).0.len() < 0x1_0000_0000
            && entries[i].1.len() < 0x1_0000_0000
}

/// Every restart point has an offset that the format can store.
pub open spec fn restarts_fit(entries: Seq<Pair>, interval: nat) -> bool {
    forall|j: int|
        0 <= j < restart_indices(entries.len(), interval).len() ==> entry_offset(
            entries,
            interval,
            #[trigger] restart_indices(entries.len(), interval)[j] as int,
        ) < 0x1_0000_0000
}

// ---------------------------------------------------------------------------
// Layout of the entries
// ---------------------------------------------------------------------------

/// The bytes of a longer run begin with the bytes of a shorter one.
pub proof fn lemma_prefix(entries: Seq<Pair>, interval: nat, i: int)
    requires
        0 <= i <= entries.len(),
    ensures
        entry_offset(entries, interval, i) <= entries_bytes(entries, interval).len(),
        entries_bytes(entries, interval).take(entry_offset(entries, interval, i) as int)
            == entries_bytes(entries.take(i), interval),
    decreases entries.len() - i,
{
    if i == entries.len() {
        assert(entries.take(i) =~= entries);
        assert(entries_bytes(entries, interval).take(
            entry_offset(entries, interval, i) as int,
        ) =~= entries_bytes(entries, interval));
    } else {
        let shorter = entries.drop_last();
        lemma_prefix(shorter, interval, i);
        assert(shorter.take(i) =~= entries.take(i));
        let head = entries_bytes(shorter, interval);
        let n = entry_offset(entries, interval, i) as int;
        assert(entries_bytes(entries, interval).take(n) =~= head.take(n));
    }
}

/// Entry 0 is a restart point whatever the interval.
pub proof fn lemma_zero_restarts(interval: nat)
    requires
        interval > 0,
    ensures
        0int % (interval as int) == 0,
{
    vstd::arithmetic::div_mod::lemma_small_mod(0, interval);
}

/// Entry `i` stands between its offset and the next one.
pub proof fn lemma_entry_span(entries: Seq<Pair>, interval: nat, i: int)
    requires
        interval > 0,
        0 <= i < entries.len(),
    ensures
        entry_offset(entries, interval, 0) == 0,
        entry_offset(entries, interval, entries.len() as int) == entries_bytes(
            entries,
            interval,
        ).len(),
        entry_offset(entries, interval, i) + 3 <= entry_offset(entries, interval, i + 1)
            <= entries_bytes(entries, interval).len(),
        entries_bytes(entries, interval).subrange(
            entry_offset(entries, interval, i) as int,
            entry_offset(entries, interval, i + 1) as int,
        ) == entry_bytes(shared_at(entries, interval, i), entries[i].0, entries[i].1),
{
    let all = entries_bytes(entries, interval);
    let upto = entries.take(i + 1);
    let from = entry_offset(entries, interval, i) as int;
    let to = entry_offset(entries, interval, i + 1) as int;
    let own = entry_bytes(shared_at(entries, interval, i), entries[i].0, entries[i].1);
    assert(entries.take(0) =~= Seq::empty());
    assert(entries.take(entries.len() as int) =~= entries);
    assert(upto.drop_last() =~= entries.take(i));
    lemma_zero_restarts(interval);
    assert(shared_at(upto, interval, i) == shared_at(entries, interval, i));
    assert(entries_bytes(upto, interval) == entries_bytes(entries.take(i), interval) + own);
    lemma_prefix(entries, interval, i + 1);
    assert(all.subrange(from, to) =~= all.take(to).subrange(from, to));
    assert(entries_bytes(upto, interval).subrange(from, to) =~= own);
    lemma_varint_len(len32(shared_at(entries, interval, i)));
    lemma_varint_len(len32((entries[i].0.len() - shared_at(entries, interval, i)) as nat));
    lemma_varint_len(len32(entries[i].1.len()));
}

/// Later entries have larger offsets.
pub proof fn lemma_offsets_ascend(entries: Seq<Pair>, interval: nat, i: int, j: int)
    requires
        interval > 0,
        0 <= i <= j <= entries.len(),
    ensures
        entry_offset(entries, interval, i) + 3 * (j - i) <= entry_offset(entries, interval, j)
            <= entries_bytes(entries, interval).len(),
    decreases j - i,
{
    if i < j {
        lemma_offsets_ascend(entries, interval, i, j - 1);
        lemma_entry_span(entries, interval, j - 1);
    } else {
        lemma_prefix(entries, interval, i);
    }
}

// ---------------------------------------------------------------------------
// Reading one entry
// ---------------------------------------------------------------------------

/// The lengths at the front of an entry are read back.
proof fn lemma_read_lengths(data: Seq<u8>, pos: nat, shared: nat, key: Seq<u8>, value: Seq<u8>)
    requires
        shared <= key.len() < 0x1_0000_0000,
        value.len() < 0x1_0000_0000,
        pos + entry_bytes(shared, key, value).len() <= data.len(),
        data.subrange(pos as int, (pos + entry_bytes(shared, key, value).len()) as int)
            == entry_bytes(shared, key, value),
    ensures
        ({
            let at = pos + varint(shared).len() + varint((key.len() - shared) as nat).len()
                + varint(value.len()).len();
            &&& read_lengths(data, pos) == (
                at,
                Ok::<(u32, u32, u32), BlockError>(
                    (shared as u32, (key.len() - shared) as u32, value.len() as u32),
                ),
            )
            &&& at + (key.len() - shared) + value.len() == pos + entry_bytes(
                shared,
                key,
                value,
            ).len()
            &&& data.subrange(at as int, at + (key.len() - shared)) == key.skip(shared as int)
            &&& data.subrange(
                at + (key.len() - shared),
                at + (key.len() - shared) + value.len(),
            ) == value
        }),
{
    let v1 = varint(shared);
    let v2 = varint((key.len() - shared) as nat);
    let v3 = varint(value.len());
    let own = entry_bytes(shared, key, value);
    let tail = data.subrange(pos as int, (pos + own.len()) as int);
    let p1 = (pos + v1.len()) as int;
    let p2 = p1 + v2.len();
    let p3 = p2 + v3.len();
    let p4 = p3 + (key.len() - shared);
    assert(own =~= v1 + v2 + v3 + key.skip(shared as int) + value);
    assert(data.skip(pos as int).take(v1.len() as int) =~= tail.subrange(0, v1.len() as int));
    assert(own.subrange(0, v1.len() as int) =~= v1);
    lemma_varint_round_trip(shared, data.skip(pos as int));
    assert(data.skip(p1).take(v2.len() as int) =~= tail.subrange(p1 - pos, p2 - pos));
    assert(own.subrange(p1 - pos, p2 - pos) =~= v2);
    lemma_varint_round_trip((key.len() - shared) as nat, data.skip(p1));
    assert(data.skip(p2).take(v3.len() as int) =~= tail.subrange(p2 - pos, p3 - pos));
    assert(own.subrange(p2 - pos, p3 - pos) =~= v3);
    lemma_varint_round_trip(value.len(), data.skip(p2));
    assert(data.subrange(p3, p4) =~= tail.subrange(p3 - pos, p4 - pos));
    assert(own.subrange(p3 - pos, p4 - pos) =~= key.skip(shared as int));
    assert(data.subrange(p4, p4 + value.len()) =~= tail.subrange(
        p4 - pos,
        p4 - pos + value.len(),
    ));
    assert(own.subrange(p4 - pos, p4 - pos + value.len()) =~= value);
}

/// `data` begins with the bytes of `entries`.
pub open spec fn begins_with(data: Seq<u8>, entries: Seq<Pair>, interval: nat) -> bool {
    let all = entries_bytes(entries, interval);
    all.len() <= data.len() && data.take(all.len() as int) == all
}

/// Entry `i` in place, as `lemma_read_lengths` wants it.
proof fn lemma_entry_in_place(data: Seq<u8>, entries: Seq<Pair>, interval: nat, i: int)
    requires
        interval > 0,
        begins_with(data, entries, interval),
        0 <= i < entries.len(),
    ensures
        ({
            let own = entry_bytes(shared_at(entries, interval, i), entries[i].0, entries[i].1);
            let pos = entry_offset(entries, interval, i);
            &&& pos + own.len() == entry_offset(entries, interval, i + 1)
            &&& pos + own.len() <= entries_bytes(entries, interval).len() <= data.len()
            &&& data.subrange(pos as int, (pos + own.len()) as int) == own
            &&& shared_at(entries, interval, i) <= entries[i].0.len()
        }),
{
    let all = entries_bytes(entries, interval);
    let own = entry_bytes(shared_at(entries, interval, i), entries[i].0, entries[i].1);
    let from = entry_offset(entries, interval, i) as int;
    let to = entry_offset(entries, interval, i + 1) as int;
    lemma_entry_span(entries, interval, i);
    assert(data.subrange(from, to) =~= data.take(all.len() as int).subrange(from, to));
    assert(own.len() == to - from);
    lemma_zero_restarts(interval);
    if i % (interval as int) != 0 {
        lemma_shared_prefix(entries[i - 1].0, entries[i].0);
    }
}

/// Entry `i` is read back.
pub proof fn lemma_read_step(
    data: Seq<u8>,
    entries: Seq<Pair>,
    interval: nat,
    i: int,
    key: Seq<u8>,
)
    requires
        interval > 0,
        begins_with(data, entries, interval),
        lengths_fit(entries),
        0 <= i < entries.len(),
        i % (interval as int) == 0 || i > 0 && key == entries[i - 1].0,
    ensures
        read_step(
            data,
            entries_bytes(entries, interval).len(),
            entry_offset(entries, interval, i),
            key,
        ) == (EntryStep {
            pos: entry_offset(entries, interval, i + 1),
            key: entries[i].0,
            outcome: Ok(entries[i].1),
        }),
{
    let shared = shared_at(entries, interval, i);
    let own_key = entries[i].0;
    let pos = entry_offset(entries, interval, i);
    lemma_entry_in_place(data, entries, interval, i);
    lemma_read_lengths(data, pos, shared, own_key, entries[i].1);
    if i % (interval as int) == 0 {
        assert(truncated(key, 0) + own_key.skip(0) =~= own_key);
    } else {
        lemma_shared_prefix(key, own_key);
        assert(truncated(key, shared) + own_key.skip(shared as int) =~= own_key);
    }
}

// ---------------------------------------------------------------------------
// Reading all entries
// ---------------------------------------------------------------------------

/// Reading on from entry `i` gives the rest.
proof fn lemma_read_entries(
    data: Seq<u8>,
    entries: Seq<Pair>,
    interval: nat,
    i: int,
    key: Seq<u8>,
)
    requires
        interval > 0,
        begins_with(data, entries, interval),
        lengths_fit(entries),
        0 <= i <= entries.len(),
        i == 0 || key == entries[i - 1].0,
    ensures
        read_entries(
            data,
            entries_bytes(entries, interval).len(),
            entry_offset(entries, interval, i),
            key,
        ) == Ok::<Seq<Pair>, BlockError>(entries.skip(i)),
    decreases entries.len() - i,
{
    lemma_offsets_ascend(entries, interval, i, entries.len() as int);
    lemma_zero_restarts(interval);
    assert(entries.take(entries.len() as int) =~= entries);
    if i == entries.len() {
        assert(entries.skip(i) =~= Seq::empty());
    } else {
        lemma_read_step(data, entries, interval, i, key);
        lemma_entry_span(entries, interval, i);
        lemma_read_entries(data, entries, interval, i + 1, entries[i].0);
        assert(entries.skip(i) =~= seq![entries[i]] + entries.skip(i + 1));
    }
}

// ---------------------------------------------------------------------------
// Looking a key up
// ---------------------------------------------------------------------------

/// Scanning from entry `i` to entry `stop` finds what is there.
proof fn lemma_scan(
    data: Seq<u8>,
    entries: Seq<Pair>,
    interval: nat,
    i: int,
    stop: int,
    key: Seq<u8>,
    target: Seq<u8>,
)
    requires
        interval > 0,
        begins_with(data, entries, interval),
        lengths_fit(entries),
        ascending(entries),
        0 <= i <= stop <= entries.len(),
        i % (interval as int) == 0 || i > 0 && key == entries[i - 1].0,
    ensures
        scan(
            data,
            entries_bytes(entries, interval).len(),
            entry_offset(entries, interval, i),
            entry_offset(entries, interval, stop),
            key,
            target,
        ) == Ok::<Option<Seq<u8>>, BlockError>(find(entries.subrange(i, stop), target)),
    decreases stop - i,
{
    let part = entries.subrange(i, stop);
    lemma_offsets_ascend(entries, interval, i, stop);
    if i < stop {
        lemma_read_step(data, entries, interval, i, key);
        lemma_entry_span(entries, interval, i);
        assert(part[0] == entries[i]);
        if entries[i].0 != target {
            if lex_less(target, entries[i].0) {
                assert forall|j: int| 0 <= j < part.len() implies #[trigger] part[j].0
                    != target by {
                    assert(part[j] == entries[i + j]);
                    if j > 0 {
                        assert(lex_less(entries[i].0, entries[i + j].0));
                        lemma_lex_transitive(target, entries[i].0, entries[i + j].0);
                    }
                    lemma_lex_irreflexive(target);
                }
                lemma_find_absent(part, target);
            } else {
                lemma_scan(data, entries, interval, i + 1, stop, entries[i].0, target);
                assert(part.drop_first() =~= entries.subrange(i + 1, stop));
            }
        }
    }
}

/// The restart points ascend from 0, stay below `n`, and are the multiples of the interval.
pub proof fn lemma_restart_indices(n: nat, interval: nat)
    requires
        interval > 0,
    ensures
        ({
            let r = restart_indices(n, interval);
            &&& r.len() >= 1
            &&& r.len() <= n || n == 0 && r.len() == 1
            &&& r[0] == 0
            &&& forall|j: int| 0 <= j < r.len() ==> #[trigger] r[j] < n || n == 0
            &&& forall|j: int| 0 <= j < r.len() ==> #[trigger] r[j] as int % (interval as int) == 0
            &&& forall|j: int, k: int| 0 <= j < k < r.len() ==> #[trigger] r[j] < #[trigger] r[k]
        }),
    decreases n,
{
    if n > 1 {
        lemma_restart_indices((n - 1) as nat, interval);
    } else {
        lemma_zero_restarts(interval);
    }
}

/// `b` is the block of `entries` taken apart.
pub open spec fn holds(b: BlockView, entries: Seq<Pair>, interval: nat) -> bool {
    &&& begins_with(b.data, entries, interval)
    &&& b.entries_end == entries_bytes(entries, interval).len()
    &&& b.restarts == restart_offsets(entries, interval)
}

/// The key at a restart point is read back.
proof fn lemma_restart_key(b: BlockView, entries: Seq<Pair>, interval: nat, j: int)
    requires
        interval > 0,
        holds(b, entries, interval),
        lengths_fit(entries),
        restarts_fit(entries, interval),
        entries.len() > 0,
        0 <= j < b.restarts.len(),
    ensures
        restart_key(b, j) == Ok::<Seq<u8>, BlockError>(
            entries[restart_indices(entries.len(), interval)[j] as int].0,
        ),
        b.restarts[j] as nat == entry_offset(
            entries,
            interval,
            restart_indices(entries.len(), interval)[j] as int,
        ),
        b.restarts[j] < b.entries_end,
{
    lemma_restart_indices(entries.len(), interval);
    let i = restart_indices(entries.len(), interval)[j] as int;
    lemma_entry_in_place(b.data, entries, interval, i);
    lemma_read_lengths(
        b.data,
        entry_offset(entries, interval, i),
        shared_at(entries, interval, i),
        entries[i].0,
        entries[i].1,
    );
    lemma_entry_span(entries, interval, i);
    assert(entries[i].0.skip(0) =~= entries[i].0);
}

/// The key at restart point `j`.
spec fn key_at(entries: Seq<Pair>, interval: nat, j: int) -> Seq<u8> {
    entries[restart_indices(entries.len(), interval)[j] as int].0
}

/// Binary search lands on the restart point whose interval may hold the target.
proof fn lemma_search(
    b: BlockView,
    entries: Seq<Pair>,
    interval: nat,
    target: Seq<u8>,
    lo: int,
    hi: int,
)
    requires
        interval > 0,
        holds(b, entries, interval),
        lengths_fit(entries),
        restarts_fit(entries, interval),
        ascending(entries),
        entries.len() > 0,
        0 <= lo <= hi <= b.restarts.len(),
        lo == 0 || lex_less(key_at(entries, interval, lo - 1), target),
        hi == b.restarts.len() || lex_less(target, key_at(entries, interval, hi)),
    ensures
        search(b, target, lo, hi) matches Ok(i) && {
            &&& 0 <= i < b.restarts.len()
            &&& i == 0 || !lex_less(target, key_at(entries, interval, i))
            &&& i + 1 == b.restarts.len() || lex_less(target, key_at(entries, interval, i + 1))
        },
    decreases hi - lo,
{
    lemma_restart_indices(entries.len(), interval);
    let r = restart_indices(entries.len(), interval);
    if lo < hi {
        let mid = lo + (hi - lo) / 2;
        lemma_restart_key(b, entries, interval, mid);
        let key = key_at(entries, interval, mid);
        lemma_lex_total(key, target);
        if key == target {
            lemma_lex_irreflexive(target);
            if mid + 1 < b.restarts.len() {
                assert(r[mid] < r[mid + 1]);
                assert(lex_less(entries[r[mid] as int].0, entries[r[mid + 1] as int].0));
            }
        } else if lex_less(key, target) {
            lemma_search(b, entries, interval, target, mid + 1, hi);
        } else {
            lemma_search(b, entries, interval, target, lo, mid);
        }
    } else if lo > 0 {
        lemma_lex_asymmetric(key_at(entries, interval, lo - 1), target);
    } else if r.len() > 1 {
        assert(r[0] < r[1]);
        assert(lex_less(entries[r[0] as int].0, entries[r[1] as int].0));
        lemma_lex_transitive(
            target,
            key_at(entries, interval, 0),
            key_at(entries, interval, 1),
        );
    }
}

/// Looking a key up in a block gives the value it was written with, or nothing.
pub proof fn lemma_block_get(b: BlockView, entries: Seq<Pair>, interval: nat, target: Seq<u8>)
    requires
        interval > 0,
        holds(b, entries, interval),
        lengths_fit(entries),
        restarts_fit(entries, interval),
        ascending(entries),
        entries.len() > 0,
    ensures
        block_get(b, target) == Ok::<Option<Seq<u8>>, BlockError>(find(entries, target)),
{
    lemma_restart_indices(entries.len(), interval);
    let r = restart_indices(entries.len(), interval);
    lemma_search(b, entries, interval, target, 0, b.restarts.len() as int);
    let i = search(b, target, 0, b.restarts.len() as int)->Ok_0;
    lemma_restart_key(b, entries, interval, i);
    let from = r[i] as int;
    let to = if i + 1 < r.len() {
        r[i + 1] as int
    } else {
        entries.len() as int
    };
    if i + 1 < r.len() {
        lemma_restart_key(b, entries, interval, i + 1);
        assert(r[i] < r[i + 1]);
    } else {
        lemma_entry_span(entries, interval, 0);
    }
    lemma_scan(b.data, entries, interval, from, to, Seq::empty(), target);
    lemma_find_within(entries, target, from, to);
}

// ---------------------------------------------------------------------------
// The whole block
// ---------------------------------------------------------------------------

/// Stored offsets take four bytes each.
pub proof fn lemma_offsets_len(offsets: Seq<u32>)
    ensures
        offsets_bytes(offsets).len() == 4 * offsets.len(),
    decreases offsets.len(),
{
    if offsets.len() > 0 {
        lemma_offsets_len(offsets.drop_last());
        lemma_le_len(offsets.last() as nat, 4);
    }
}

/// A stored offset is read back.
proof fn lemma_offset_at(offsets: Seq<u32>, i: int)
    requires
        0 <= i < offsets.len(),
    ensures
        offsets_bytes(offsets).len() == 4 * offsets.len(),
        le_value(offsets_bytes(offsets).subrange(4 * i, 4 * i + 4)) == offsets[i],
    decreases offsets.len(),
{
    let shorter = offsets.drop_last();
    lemma_offsets_len(offsets);
    lemma_offsets_len(shorter);
    lemma_le_bounds();
    lemma_le_round_trip(offsets.last() as nat, 4);
    if i == offsets.len() - 1 {
        assert(offsets_bytes(offsets).subrange(4 * i, 4 * i + 4) =~= le_bytes(
            offsets.last() as nat,
            4,
        ));
    } else {
        lemma_offset_at(shorter, i);
        assert(offsets_bytes(offsets).subrange(4 * i, 4 * i + 4) =~= offsets_bytes(
            shorter,
        ).subrange(4 * i, 4 * i + 4));
    }
}

/// Bytes put together as a block come apart again.
proof fn lemma_open_parts(all: Seq<u8>, offsets: Seq<u32>)
    requires
        offsets.len() < 0x1_0000_0000,
    ensures
        ({
            let body = all + offsets_bytes(offsets) + le_bytes(offsets.len(), 4);
            let data = body + le_bytes(crc32(body) as nat, 4);
            open_block(data) == Ok::<BlockView, BlockError>(
                BlockView { data, restarts: offsets, entries_end: all.len() },
            )
        }),
{
    let stored = offsets_bytes(offsets);
    let count = le_bytes(offsets.len(), 4);
    let body = all + stored + count;
    let sum = le_bytes(crc32(body) as nat, 4);
    let data = body + sum;
    let n = data.len() as int;
    lemma_offsets_len(offsets);
    lemma_le_bounds();
    lemma_le_round_trip(offsets.len(), 4);
    lemma_le_round_trip(crc32(body) as nat, 4);
    assert(data.take(n - 4) =~= body);
    assert(data.subrange(n - 4, n) =~= sum);
    assert(data.subrange(n - 8, n - 4) =~= count);
    let end = all.len() as int;
    let b = open_block(data)->Ok_0;
    assert forall|i: int| 0 <= i < offsets.len() implies b.restarts[i] == offsets[i] by {
        lemma_offset_at(offsets, i);
        assert(data.subrange(end + 4 * i, end + 4 * i + 4) =~= stored.subrange(4 * i, 4 * i + 4));
    }
    assert(b.restarts =~= offsets);
}

/// A finished block can be taken apart, and its parts are those it was put together from.
pub proof fn lemma_open_block(entries: Seq<Pair>, interval: nat)
    requires
        interval > 0,
        restart_offsets(entries, interval).len() < 0x1_0000_0000,
    ensures
        open_block(block_bytes(entries, interval)) matches Ok(b) && holds(b, entries, interval)
            && b.data == block_bytes(entries, interval),
{
    let all = entries_bytes(entries, interval);
    let offsets = restart_offsets(entries, interval);
    lemma_open_parts(all, offsets);
    assert(len32(offsets.len()) == offsets.len());
    let body = all + offsets_bytes(offsets) + le_bytes(offsets.len(), 4);
    assert(block_bytes(entries, interval) == body + le_bytes(crc32(body) as nat, 4));
    lemma_front(all, offsets_bytes(offsets), le_bytes(offsets.len(), 4), le_bytes(
        crc32(body) as nat,
        4,
    ));
}

/// The first of four byte strings put together.
proof fn lemma_front(a: Seq<u8>, b: Seq<u8>, c: Seq<u8>, d: Seq<u8>)
    ensures
        a.len() <= (a + b + c + d).len(),
        (a + b + c + d).take(a.len() as int) == a,
{
    assert((a + b + c + d).take(a.len() as int) =~= a);
}

/// Looking a key up in a finished block gives the value under that key, and nothing for a key
/// that the block does not hold.
pub proof fn law_block_get(entries: Seq<Pair>, interval: nat, target: Seq<u8>)
    requires
        interval > 0,
        entries.len() > 0,
        ascending(entries),
        lengths_fit(entries),
        restarts_fit(entries, interval),
        restart_offsets(entries, interval).len() < 0x1_0000_0000,
    ensures
        open_block(block_bytes(entries, interval)) matches Ok(b) && block_get(b, target) == Ok::<
            Option<Seq<u8>>,
            BlockError,
        >(find(entries, target)),
{
    lemma_open_block(entries, interval);
    let b = open_block(block_bytes(entries, interval))->Ok_0;
    lemma_block_get(b, entries, interval, target);
}

/// Reading all entries of a finished block gives the entries it was written from, in order.
pub proof fn law_block_entries(entries: Seq<Pair>, interval: nat)
    requires
        interval > 0,
        lengths_fit(entries),
        restart_offsets(entries, interval).len() < 0x1_0000_0000,
    ensures
        open_block(block_bytes(entries, interval)) matches Ok(b) && block_entries(b) == Ok::<
            Seq<Pair>,
            BlockError,
        >(entries),
{
    lemma_open_block(entries, interval);
    let b = open_block(block_bytes(entries, interval))->Ok_0;
    assert(entries.take(0) =~= Seq::empty());
    lemma_read_entries(b.data, entries, interval, 0, Seq::empty());
    assert(entries.skip(0) =~= entries);
}

/// Bytes that end in their checksum do not any more once exactly one of them was changed.
proof fn lemma_damage(data: Seq<u8>, i: int, b: u8)
    requires
        data.len() >= 8,
        le_value(data.skip(data.len() - 4)) == crc32(data.take(data.len() - 4)),
        0 <= i < data.len(),
        b != data[i],
    ensures
        open_block(data.update(i, b)) == Err::<BlockView, BlockError>(
            BlockError::ChecksumMismatch,
        ),
{
    let other = data.update(i, b);
    let n = data.len() as int;
    assert(data.subrange(n - 4, n) =~= data.skip(n - 4));
    if i < n - 4 {
        assert(other.take(n - 4) =~= data.take(n - 4).update(i, b));
        assert(other.subrange(n - 4, n) =~= data.subrange(n - 4, n));
        law_crc32_differs(data.take(n - 4), i, b);
    } else {
        assert(other.take(n - 4) =~= data.take(n - 4));
        let (x, y) = (data.subrange(n - 4, n), other.subrange(n - 4, n));
        assert(x[i - (n - 4)] != y[i - (n - 4)]);
        if le_value(x) == le_value(y) {
            lemma_le_injective(x, y);
        }
    }
}

/// A block of which exactly one byte was changed is refused: its checksum does not match.
pub proof fn law_block_damage(data: Seq<u8>, i: int, b: u8)
    requires
        open_block(data) is Ok,
        0 <= i < data.len(),
        b != data[i],
    ensures
        open_block(data.update(i, b)) == Err::<BlockView, BlockError>(
            BlockError::ChecksumMismatch,
        ),
{
    let n = data.len() as int;
    assert(data.subrange(n - 4, n) =~= data.skip(n - 4));
    lemma_damage(data, i, b);
}

/// A finished block of which exactly one byte was changed is refused, however long its entries.
pub proof fn law_finished_block_damage(entries: Seq<Pair>, interval: nat, i: int, b: u8)
    requires
        0 <= i < block_bytes(entries, interval).len(),
        b != block_bytes(entries, interval)[i],
    ensures
        open_block(block_bytes(entries, interval).update(i, b)) == Err::<BlockView, BlockError>(
            BlockError::ChecksumMismatch,
        ),
{
    let body = block_body(entries, interval);
    let sum = le_bytes(crc32(body) as nat, 4);
    let data = block_bytes(entries, interval);
    let n = data.len() as int;
    lemma_le_bounds();
    lemma_le_round_trip(crc32(body) as nat, 4);
    lemma_le_len(len32(restart_offsets(entries, interval).len()), 4);
    assert(data.skip(n - 4) =~= sum);
    assert(data.take(n - 4) =~= body);
    lemma_damage(data, i, b);
}

// ---------------------------------------------------------------------------
// Layout
// ---------------------------------------------------------------------------

/// The restart points are the multiples of the interval, from 0 on, as many as there are below the
/// number of entries (one, if there are no entries).
pub proof fn law_restart_indices(n: nat, interval: nat, j: int)
    requires
        interval > 0,
    ensures
        ({
            let r = restart_indices(n, interval);
            &&& 0 <= j < r.len() ==> r[j] == j * interval
            &&& n > 0 ==> (r.len() - 1) * interval < n <= r.len() * interval
            &&& n == 0 ==> r.len() == 1
        }),
    decreases n,
{
    let r = restart_indices(n, interval);
    if n <= 1 {
        assert(0 * interval == 0 && 1 * interval == interval) by (nonlinear_arith);
    } else {
        let before = restart_indices((n - 1) as nat, interval);
        let m = before.len() as int;
        let d = interval as int;
        law_restart_indices((n - 1) as nat, interval, j);
        vstd::arithmetic::div_mod::lemma_fundamental_div_mod(n - 1, d);
        let q = (n - 1) / d;
        if (n - 1) % d == 0 {
            assert(q == m) by (nonlinear_arith)
                requires
                    n - 1 == d * q,
                    (m - 1) * d < n - 1 <= m * d,
                    d > 0,
            ;
            assert(m * d == d * q) by (nonlinear_arith)
                requires
                    q == m,
            ;
            assert((m + 1) * d == m * d + d) by (nonlinear_arith);
        } else {
            assert(n - 1 != m * d) by {
                if n - 1 == m * d {
                    vstd::arithmetic::div_mod::lemma_mod_multiples_basic(m, d);
                }
            }
        }
    }
}

/// Where the parts of a finished block are. Entry `i` takes the bytes from its offset to the next:
/// three lengths, the key without the bytes that it shares with the key before it, and the value;
/// at a restart point nothing is shared. Behind the entries are the offsets of the restart points,
/// their number, and the CRC-32 of all bytes in front, four bytes each.
pub proof fn law_block_layout(entries: Seq<Pair>, interval: nat, i: int, j: int)
    requires
        interval > 0,
    ensures
        ({
            let data = block_bytes(entries, interval);
            let n = data.len() as int;
            let end = entry_offset(entries, interval, entries.len() as int) as int;
            let count = restart_indices(entries.len(), interval).len();
            &&& entry_offset(entries, interval, 0) == 0
            &&& n == end + 4 * count + 8
            &&& data.subrange(n - 4, n) == le_bytes(crc32(data.take(n - 4)) as nat, 4)
            &&& data.subrange(n - 8, n - 4) == le_bytes(count % 0x1_0000_0000, 4)
            &&& 0 <= j < count ==> data.subrange(end + 4 * j, end + 4 * j + 4) == le_bytes(
                entry_offset(
                    entries,
                    interval,
                    restart_indices(entries.len(), interval)[j] as int,
                ) % 0x1_0000_0000,
                4,
            )
            &&& 0 <= i < entries.len() ==> {
                let (key, value) = entries[i];
                let shared = if i % (interval as int) == 0 {
                    0
                } else {
                    shared_prefix(entries[i - 1].0, key)
                };
                data.subrange(
                    entry_offset(entries, interval, i) as int,
                    entry_offset(entries, interval, i + 1) as int,
                ) == varint(shared % 0x1_0000_0000) + varint(
                    ((key.len() - shared) as nat) % 0x1_0000_0000,
                ) + varint(value.len() % 0x1_0000_0000) + key.skip(shared as int) + value
            }
        }),
{
    let all = entries_bytes(entries, interval);
    let offsets = restart_offsets(entries, interval);
    let stored = offsets_bytes(offsets);
    let count = le_bytes(len32(offsets.len()), 4);
    let body = block_body(entries, interval);
    let data = block_bytes(entries, interval);
    let n = data.len() as int;
    let end = all.len() as int;
    assert(entries.take(entries.len() as int) =~= entries);
    assert(entries.take(0) =~= Seq::empty());
    lemma_offsets_len(offsets);
    lemma_le_len(len32(offsets.len()), 4);
    lemma_le_len(crc32(body) as nat, 4);
    assert(data.take(n - 4) =~= body);
    assert(data.subrange(n - 4, n) =~= le_bytes(crc32(body) as nat, 4));
    assert(data.subrange(n - 8, n - 4) =~= count);
    if 0 <= j < offsets.len() {
        let at = entry_offset(
            entries,
            interval,
            restart_indices(entries.len(), interval)[j] as int,
        );
        assert(offsets[j] as nat == len32(at));
        lemma_stored_offset(offsets, j);
        assert(data.subrange(end + 4 * j, end + 4 * j + 4) =~= stored.subrange(4 * j, 4 * j + 4));
    }
    if 0 <= i < entries.len() {
        lemma_entry_span(entries, interval, i);
        let from = entry_offset(entries, interval, i) as int;
        let to = entry_offset(entries, interval, i + 1) as int;
        assert(data.subrange(from, to) =~= all.subrange(from, to));
    }
}

/// Offset `j` as stored.
proof fn lemma_stored_offset(offsets: Seq<u32>, j: int)
    requires
        0 <= j < offsets.len(),
    ensures
        4 * j + 4 <= offsets_bytes(offsets).len(),
        offsets_bytes(offsets).subrange(4 * j, 4 * j + 4) == le_bytes(offsets[j] as nat, 4),
    decreases offsets.len(),
{
    let shorter = offsets.drop_last();
    lemma_offsets_len(offsets);
    lemma_offsets_len(shorter);
    lemma_le_len(offsets.last() as nat, 4);
    if j == offsets.len() - 1 {
        assert(offsets_bytes(offsets).subrange(4 * j, 4 * j + 4) =~= le_bytes(
            offsets[j] as nat,
            4,
        ));
    } else {
        lemma_stored_offset(shorter, j);
        assert(offsets_bytes(offsets).subrange(4 * j, 4 * j + 4) =~= offsets_bytes(
            shorter,
        ).subrange(4 * j, 4 * j + 4));
    }
}

/// A block takes another entry exactly if it is empty, or if what it would take finished as it is,
/// with five bytes and the lengths of key and value, stays within the limit.
pub proof fn law_has_room(
    entries: Seq<Pair>,
    interval: nat,
    limit: nat,
    key: Seq<u8>,
    value: Seq<u8>,
)
    ensures
        block_bytes(entries, interval).len() == block_size(entries, interval),
        has_room(entries, interval, limit, key, value) <==> entries.len() == 0 || block_bytes(
            entries,
            interval,
        ).len() + 5 + key.len() + value.len() <= limit,
{
    let offsets = restart_offsets(entries, interval);
    lemma_offsets_len(offsets);
    lemma_le_len(len32(offsets.len()), 4);
    lemma_le_len(crc32(block_body(entries, interval)) as nat, 4);
}

/// Which bytes are a block, and what its trailer says: the last four bytes are the CRC-32 of those
/// in front, the four before them the number of restart points, and the offsets of these stand
/// before that.
pub proof fn law_open_block(data: Seq<u8>, j: int)
    ensures
        ({
            let n = data.len() as int;
            let count = le_value(data.subrange(n - 8, n - 4));
            match open_block(data) {
                Err(BlockError::BlockTooSmall) => n < 8 || (le_value(data.subrange(n - 4, n))
                    == crc32(data.take(n - 4)) && n < 8 + 4 * count),
                Err(BlockError::ChecksumMismatch) => n >= 8 && le_value(data.subrange(n - 4, n))
                    != crc32(data.take(n - 4)),
                Err(_) => false,
                Ok(b) => {
                    &&& n >= 8 + 4 * count
                    &&& le_value(data.subrange(n - 4, n)) == crc32(data.take(n - 4))
                    &&& b.data == data
                    &&& b.entries_end == n - 8 - 4 * count
                    &&& b.restarts.len() == count
                    &&& 0 <= j < count ==> b.restarts[j] as nat == le_value(
                        data.subrange(b.entries_end + 4 * j, b.entries_end + 4 * j + 4),
                    )
                },
            }
        }),
{
    if let Ok(b) = open_block(data) {
        if 0 <= j < b.restarts.len() {
            lemma_le_bounds();
            lemma_le_bounded(data.subrange(b.entries_end + 4 * j, b.entries_end + 4 * j + 4));
        }
    }
}

/// How one entry is read: three lengths, then the rest of the key, then the value. The key begins
/// with as many bytes of the key before as the first length says, or all of it if it is shorter.
pub proof fn law_read_step(
    data: Seq<u8>,
    end: nat,
    pos: nat,
    key: Seq<u8>,
    shared: u32,
    unshared: u32,
    value_len: u32,
    used: (nat, nat, nat),
)
    requires
        parse_varint(data.skip(pos as int)) == Ok::<(u32, nat), BlockError>((shared, used.0)),
        parse_varint(data.skip((pos + used.0) as int)) == Ok::<(u32, nat), BlockError>(
            (unshared, used.1),
        ),
        parse_varint(data.skip((pos + used.0 + used.1) as int)) == Ok::<(u32, nat), BlockError>(
            (value_len, used.2),
        ),
    ensures
        ({
            let at = (pos + used.0 + used.1 + used.2) as int;
            let step = read_step(data, end, pos, key);
            if at + unshared + value_len > end {
                step.outcome == Err::<Seq<u8>, BlockError>(BlockError::CorruptedEntry)
            } else {
                &&& step.outcome == Ok::<Seq<u8>, BlockError>(
                    data.subrange(at + unshared, at + unshared + value_len),
                )
                &&& step.pos == at + unshared + value_len
                &&& step.key == (if shared <= key.len() {
                    key.take(shared as int)
                } else {
                    key
                }) + data.subrange(at, at + unshared)
            }
        }),
{
}

/// A length that cannot be read ends the reading of its entry with the reason.
pub proof fn law_unreadable_length(data: Seq<u8>, end: nat, pos: nat, key: Seq<u8>, e: BlockError)
    ensures
        parse_varint(data.skip(pos as int)) == Err::<(u32, nat), BlockError>(e) ==> read_step(
            data,
            end,
            pos,
            key,
        ).outcome == Err::<Seq<u8>, BlockError>(e),
        parse_varint(data.skip(pos as int)) matches Ok((_, used)) ==> {
            &&& parse_varint(data.skip((pos + used) as int)) == Err::<(u32, nat), BlockError>(e)
                ==> read_step(data, end, pos, key).outcome == Err::<Seq<u8>, BlockError>(e)
            &&& parse_varint(data.skip((pos + used) as int)) matches Ok((_, more)) ==> (
            parse_varint(data.skip((pos + used + more) as int)) == Err::<(u32, nat), BlockError>(e)
                ==> read_step(data, end, pos, key).outcome == Err::<Seq<u8>, BlockError>(e))
        },
{
}

/// Entries are read one behind another up to their end, each key from the one before it; the first
/// that cannot be read ends it with its error.
pub proof fn law_read_entries(data: Seq<u8>, end: nat, pos: nat, key: Seq<u8>)
    requires
        pos <= data.len(),
        end <= data.len(),
    ensures
        pos >= end ==> read_entries(data, end, pos, key) == Ok::<Seq<Pair>, BlockError>(
            Seq::empty(),
        ),
        pos < end ==> {
            let step = read_step(data, end, pos, key);
            match step.outcome {
                Err(e) => read_entries(data, end, pos, key) == Err::<Seq<Pair>, BlockError>(e),
                Ok(value) => match read_entries(data, end, step.pos, step.key) {
                    Err(e) => read_entries(data, end, pos, key) == Err::<Seq<Pair>, BlockError>(e),
                    Ok(rest) => read_entries(data, end, pos, key) == Ok::<Seq<Pair>, BlockError>(
                        seq![(step.key, value)] + rest,
                    ),
                },
            }
        },
{
    if pos < end {
        lemma_step_advances(data, end, pos, key);
    }
}

/// All entries of a block are those from its first byte to where the entries end.
pub proof fn law_all_entries(b: BlockView)
    ensures
        block_entries(b) == read_entries(b.data, b.entries_end, 0, Seq::empty()),
{
}

/// A search goes from entry to entry: the value of the first entry with the key is the answer;
/// there is none if a key after it or the end comes first; an entry that cannot be read before
/// that is an error.
pub proof fn law_scan(
    data: Seq<u8>,
    end: nat,
    pos: nat,
    stop: nat,
    key: Seq<u8>,
    target: Seq<u8>,
)
    requires
        pos <= data.len(),
        end <= data.len(),
    ensures
        pos >= stop ==> scan(data, end, pos, stop, key, target) == Ok::<
            Option<Seq<u8>>,
            BlockError,
        >(None),
        pos < stop ==> {
            let step = read_step(data, end, pos, key);
            scan(data, end, pos, stop, key, target) == match step.outcome {
                Err(e) => Err(e),
                Ok(value) => if step.key == target {
                    Ok(Some(value))
                } else if lex_less(target, step.key) {
                    Ok(None)
                } else {
                    scan(data, end, step.pos, stop, step.key, target)
                },
            }
        },
{
    if pos < stop {
        lemma_step_advances(data, end, pos, key);
    }
}

/// A lookup in a block with one restart point at its first byte goes through the block from there,
/// if the key stored there can be read in full.
pub proof fn law_get_from_the_start(b: BlockView, target: Seq<u8>)
    requires
        b.restarts == seq![0u32],
    ensures
        match restart_key(b, 0) {
            Err(e) => block_get(b, target) == Err::<Option<Seq<u8>>, BlockError>(e),
            Ok(_) => block_get(b, target) == scan(
                b.data,
                b.entries_end,
                0,
                b.entries_end,
                Seq::empty(),
                target,
            ),
        },
{
    reveal_with_fuel(search, 3);
}

} // verus!
