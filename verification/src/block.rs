//! Data blocks: sorted entries with prefix-compressed keys.
//!
//! ```text
//! entry 0 (restart point, full key)
//! entry 1 (prefix-compressed)
//! ...
//! restart offsets: u32 each
//! number of restart offsets: u32
//! CRC-32 of everything above: u32
//! ```
//!
//! An entry is three variable-length numbers (bytes shared with the key before, further key
//! bytes, value bytes), then the further key bytes, then the value. At a restart point nothing
//! is shared, so the key stands there in full.

use vstd::prelude::*;
use vstd::slice::{slice_subrange, slice_to_vec};
use crate::block_model::{
    block_bytes, block_entries, block_get, block_size, entries_bytes, entry_bytes, entry_offset,
    has_room, lemma_step_advances, len32, offsets_bytes, open_block, read_entries, read_lengths,
    read_step, restart_indices, restart_key, restart_offsets, scan, search, shared_at, truncated,
    BlockView,
};
use crate::block_proof::{
    law_has_room, lemma_offsets_ascend, lemma_restart_indices, lemma_zero_restarts, restarts_fit,
};
use crate::bytes::{append_slice, append_u32, le_value, read_u32};
use crate::checksum::checksum;
use crate::order::{compare_bytes, lemma_shared_prefix, shared_prefix_len, KeyOrder, Pair};
use crate::varint::{decode_varint, encode_varint, varint};

verus! {

/// Why a block cannot be read.
#[derive(Debug, Clone, Copy, PartialEq, Eq, Structural)]
pub enum BlockError {
    /// The block is too small for the trailer it must hold.
    BlockTooSmall,
    /// The checksum does not match the contents.
    ChecksumMismatch,
    /// A length is encoded in more than five bytes.
    InvalidVarint,
    /// The data end inside a length.
    UnexpectedEof,
    /// An entry does not fit the block.
    CorruptedEntry,
}

impl BlockError {
    /// The text of the error.
    pub open spec fn text(self) -> Seq<char> {
        match self {
            BlockError::BlockTooSmall => "Block too small to contain valid data"@,
            BlockError::ChecksumMismatch => "Block checksum mismatch"@,
            BlockError::InvalidVarint => "Invalid varint encoding"@,
            BlockError::UnexpectedEof => "Unexpected end of data"@,
            BlockError::CorruptedEntry => "Corrupted block entry"@,
        }
    }

    /// Describes the error.
    pub fn message(&self) -> (r: String)
        ensures
            r@ == self.text(),
    {
        match self {
            BlockError::BlockTooSmall => String::from_str("Block too small to contain valid data"),
            BlockError::ChecksumMismatch => String::from_str("Block checksum mismatch"),
            BlockError::InvalidVarint => String::from_str("Invalid varint encoding"),
            BlockError::UnexpectedEof => String::from_str("Unexpected end of data"),
            BlockError::CorruptedEntry => String::from_str("Corrupted block entry"),
        }
    }
}

/// What the errors of blocks say.
pub proof fn law_block_error_texts()
    ensures
        BlockError::BlockTooSmall.text() == "Block too small to contain valid data"@,
        BlockError::ChecksumMismatch.text() == "Block checksum mismatch"@,
        BlockError::InvalidVarint.text() == "Invalid varint encoding"@,
        BlockError::UnexpectedEof.text() == "Unexpected end of data"@,
        BlockError::CorruptedEntry.text() == "Corrupted block entry"@,
{
}

// ---------------------------------------------------------------------------
// BlockBuilder
// ---------------------------------------------------------------------------

/// Builds one block from entries in sorted order.
pub struct BlockBuilder {
    /// The encoded entries.
    buf: Vec<u8>,
    /// Offsets of the restart points within `buf`.
    restarts: Vec<u32>,
    /// The first key added.
    first_key: Vec<u8>,
    /// The last key added.
    last_key: Vec<u8>,
    /// Entries since the last restart point.
    entries_since_restart: u32,
    /// Entries from one restart point to the next.
    restart_interval: u32,
    /// Size that the block should not exceed.
    max_block_size: u32,
    /// Entries added.
    entry_count: u32,
    /// The entries added.
    entries: Ghost<Seq<Pair>>,
}

/// Appending an entry leaves the offsets of the others alone.
proof fn lemma_push_offsets(entries: Seq<Pair>, e: Pair, interval: nat, i: int)
    requires
        0 <= i <= entries.len(),
    ensures
        entry_offset(entries.push(e), interval, i) == entry_offset(entries, interval, i),
{
    assert(entries.push(e).take(i) =~= entries.take(i));
}

/// What appending an entry does to the restart points.
proof fn lemma_push_restarts(entries: Seq<Pair>, e: Pair, interval: nat)
    requires
        interval > 0,
    ensures
        entries.len() > 0 && entries.len() as int % (interval as int) == 0 ==> restart_offsets(
            entries.push(e),
            interval,
        ) == restart_offsets(entries, interval).push(
            len32(entries_bytes(entries, interval).len()) as u32,
        ),
        entries.len() == 0 || entries.len() as int % (interval as int) != 0 ==> restart_offsets(
            entries.push(e),
            interval,
        ) == restart_offsets(entries, interval),
        restarts_fit(entries, interval) && entries_bytes(entries, interval).len() < 0x1_0000_0000
            ==> restarts_fit(entries.push(e), interval),
{
    let n = entries.len();
    let more = entries.push(e);
    let r = restart_indices(n, interval);
    lemma_restart_indices(n, interval);
    assert forall|j: int| 0 <= j < r.len() implies entry_offset(
        more,
        interval,
        #[trigger] r[j] as int,
    ) == entry_offset(entries, interval, r[j] as int) by {
        lemma_push_offsets(entries, e, interval, r[j] as int);
    }
    lemma_push_offsets(entries, e, interval, n as int);
    assert(entries.take(n as int) =~= entries);
    if n > 0 && n as int % (interval as int) == 0 {
        assert(restart_offsets(more, interval) =~= restart_offsets(entries, interval).push(
            len32(entries_bytes(entries, interval).len()) as u32,
        ));
    } else {
        assert(restart_offsets(more, interval) =~= restart_offsets(entries, interval));
    }
    if restarts_fit(entries, interval) && entries_bytes(entries, interval).len() < 0x1_0000_0000 {
        let r2 = restart_indices(more.len(), interval);
        assert forall|j: int| 0 <= j < r2.len() implies entry_offset(
            more,
            interval,
            #[trigger] r2[j] as int,
        ) < 0x1_0000_0000 by {
            if j < r.len() {
                assert(r2[j] == r[j]);
            }
        }
    }
}

/// Counting entries since the last restart point modulo the interval.
proof fn lemma_since_restart(n: int, interval: int)
    requires
        n > 0,
        interval > 0,
    ensures
        0 <= (n - 1) % interval < interval,
        (n - 1) % interval + 1 == interval <==> n % interval == 0,
        n % interval != 0 ==> n % interval == (n - 1) % interval + 1,
{
    vstd::arithmetic::div_mod::lemma_mod_bound(n - 1, interval);
    vstd::arithmetic::div_mod::lemma_mod_bound(n, interval);
    let q = (n - 1) / interval;
    let m = (n - 1) % interval;
    vstd::arithmetic::div_mod::lemma_fundamental_div_mod(n - 1, interval);
    if m + 1 == interval {
        assert(n == (q + 1) * interval) by (nonlinear_arith)
            requires
                n - 1 == interval * q + m,
                m + 1 == interval,
        ;
        vstd::arithmetic::div_mod::lemma_fundamental_div_mod_converse(n, interval, q + 1, 0);
    } else {
        assert(n == q * interval + (m + 1)) by (nonlinear_arith)
            requires
                n - 1 == interval * q + m,
        ;
        vstd::arithmetic::div_mod::lemma_fundamental_div_mod_converse(n, interval, q, m + 1);
    }
}

/// The 32 low-order bits of a length.
fn low32(n: usize) -> (r: u32)
    ensures
        r as nat == len32(n as nat),
{
    (n as u64 % 0x1_0000_0000) as u32
}

/// Appends an entry that takes `shared_len` leading bytes of its key from the one before it.
fn append_entry(buf: &mut Vec<u8>, shared_len: usize, key: &[u8], value: &[u8])
    requires
        shared_len <= key@.len(),
    ensures
        final(buf)@ == old(buf)@ + entry_bytes(shared_len as nat, key@, value@),
{
    let unshared_len: usize = key.len() - shared_len;
    encode_varint(low32(shared_len), buf);
    encode_varint(low32(unshared_len), buf);
    encode_varint(low32(value.len()), buf);
    let tail = slice_subrange(key, shared_len, key.len());
    assert(tail@ =~= key@.skip(shared_len as int));
    append_slice(buf, tail);
    append_slice(buf, value);
    assert(buf@ =~= old(buf)@ + entry_bytes(shared_len as nat, key@, value@));
}

impl BlockBuilder {
    /// The entries added so far.
    pub closed spec fn entries(&self) -> Seq<Pair> {
        self.entries@
    }

    /// Entries from one restart point to the next.
    pub closed spec fn interval(&self) -> nat {
        self.restart_interval as nat
    }

    /// Size that the block should not exceed.
    pub closed spec fn limit(&self) -> nat {
        self.max_block_size as nat
    }

    /// The buffers hold what the entries call for.
    pub closed spec fn wf(&self) -> bool {
        let entries = self.entries@;
        let interval = self.restart_interval as nat;
        let n = entries.len();
        &&& interval > 0
        &&& self.buf@ == entries_bytes(entries, interval)
        &&& self.restarts@ == restart_offsets(entries, interval)
        &&& restarts_fit(entries, interval)
        &&& self.entry_count as nat == n
        &&& n > 0 ==> self.first_key@ == entries[0].0
        &&& n > 0 ==> self.last_key@ == entries[n - 1].0
        &&& self.entries_since_restart as int == if n == 0 {
            0
        } else {
            (n - 1) % (interval as int) + 1
        }
    }

    /// What a well-formed builder guarantees of the block it will give.
    pub proof fn lemma_fits(&self)
        requires
            self.wf(),
        ensures
            self.interval() > 0,
            restarts_fit(self.entries(), self.interval()),
            restart_offsets(self.entries(), self.interval()).len() < 0x1_0000_0000,
    {
        lemma_restart_indices(self.entries@.len(), self.interval());
    }

    /// Creates a builder for a block of about `max_block_size` bytes with a restart point every
    /// `restart_interval` entries (every entry, if that is 0).
    pub fn new(max_block_size: u32, restart_interval: u32) -> (b: Self)
        ensures
            b.wf(),
            b.entries() == Seq::<Pair>::empty(),
            b.limit() == max_block_size,
            b.interval() == if restart_interval == 0 {
                1
            } else {
                restart_interval as nat
            },
    {
        let interval: u32 = if restart_interval == 0 {
            1
        } else {
            restart_interval
        };
        let mut restarts: Vec<u32> = Vec::new();
        restarts.push(0);
        proof {
            let none = Seq::<Pair>::empty();
            assert(none.take(0) =~= none);
            assert(restart_offsets(none, interval as nat) =~= seq![0u32]);
        }
        BlockBuilder {
            buf: Vec::with_capacity(max_block_size as usize),
            restarts,
            first_key: Vec::new(),
            last_key: Vec::new(),
            entries_since_restart: 0,
            restart_interval: interval,
            max_block_size,
            entry_count: 0,
            entries: Ghost(Seq::empty()),
        }
    }

    /// Adds an entry, unless the block is full. Returns whether the entry was added. The first
    /// entry is always added; a later one only if the estimated size stays within the limit.
    ///
    /// Keys must be added in sorted order for the block to be searchable.
    pub fn add(&mut self, key: &[u8], value: &[u8]) -> (added: bool)
        requires
            old(self).wf(),
        ensures
            final(self).wf(),
            final(self).interval() == old(self).interval(),
            final(self).limit() == old(self).limit(),
            added == has_room(
                old(self).entries(),
                old(self).interval(),
                old(self).limit(),
                key@,
                value@,
            ),
            added <==> old(self).entries().len() == 0 || block_bytes(
                old(self).entries(),
                old(self).interval(),
            ).len() + 5 + key@.len() + value@.len() <= old(self).limit(),
            final(self).entries() == if added {
                old(self).entries().push((key@, value@))
            } else {
                old(self).entries()
            },
    {
        let ghost before = self.entries@;
        let ghost interval = self.restart_interval as nat;
        proof {
            law_has_room(before, interval, self.limit(), key@, value@);
        }
        let estimate: u128 = self.estimated_size() + 5 + key.len() as u128 + value.len() as u128;
        if self.entry_count > 0 && estimate > self.max_block_size as u128 {
            return false;
        }
        proof {
            lemma_zero_restarts(interval);
            lemma_push_restarts(before, (key@, value@), interval);
            lemma_offsets_ascend(before, interval, 0, before.len() as int);
            assert(before.take(before.len() as int) =~= before);
            if before.len() > 0 {
                lemma_since_restart(before.len() as int, interval as int);
            }
        }
        let shared_len: usize = if self.entry_count == 0 {
            self.first_key = slice_to_vec(key);
            self.entries_since_restart = 0;
            0
        } else if self.entries_since_restart >= self.restart_interval {
            self.restarts.push(low32(self.buf.len()));
            self.entries_since_restart = 0;
            0
        } else {
            shared_prefix_len(self.last_key.as_slice(), key)
        };
        proof {
            if before.len() > 0 {
                lemma_shared_prefix(before.last().0, key@);
            }
        }
        let ghost all = before.push((key@, value@));
        assert(all.drop_last() =~= before);
        assert(shared_len as nat == shared_at(all, interval, before.len() as int));
        append_entry(&mut self.buf, shared_len, key, value);
        self.last_key = slice_to_vec(key);
        self.entries_since_restart = self.entries_since_restart + 1;
        self.entry_count = self.entry_count + 1;
        self.entries = Ghost(all);
        true
    }

    /// Finishes the block: the entries, the restart offsets, their count and the checksum.
    pub fn finish(self) -> (block: Vec<u8>)
        requires
            self.wf(),
        ensures
            block@ == block_bytes(self.entries(), self.interval()),
    {
        let mut buf = self.buf;
        let ghost offsets = self.restarts@;
        let ghost body = self.buf@;
        let mut i: usize = 0;
        assert(offsets.take(0) =~= Seq::empty());
        assert(buf@ =~= body + offsets_bytes(offsets.take(0)));
        while i < self.restarts.len()
            invariant
                i <= self.restarts@.len(),
                offsets == self.restarts@,
                buf@ == body + offsets_bytes(offsets.take(i as int)),
            decreases self.restarts@.len() - i,
        {
            append_u32(&mut buf, self.restarts[i]);
            proof {
                let longer = offsets.take(i + 1);
                assert(longer.drop_last() =~= offsets.take(i as int));
                assert(longer.last() == offsets[i as int]);
                assert(buf@ =~= body + offsets_bytes(longer));
            }
            i += 1;
        }
        assert(offsets.take(i as int) =~= offsets);
        append_u32(&mut buf, low32(self.restarts.len()));
        let sum: u32 = checksum(buf.as_slice());
        append_u32(&mut buf, sum);
        buf
    }

    /// The first key added, if any.
    pub fn first_key(&self) -> (r: Option<&[u8]>)
        requires
            self.wf(),
        ensures
            match r {
                Some(key) => self.entries().len() > 0 && key@ == self.entries()[0].0,
                None => self.entries().len() == 0,
            },
    {
        if self.entry_count == 0 {
            None
        } else {
            Some(self.first_key.as_slice())
        }
    }

    /// Number of entries added.
    pub fn entry_count(&self) -> (n: u32)
        requires
            self.wf(),
        ensures
            n as nat == self.entries().len(),
    {
        self.entry_count
    }

    /// Whether no entry was added.
    pub fn is_empty(&self) -> (r: bool)
        requires
            self.wf(),
        ensures
            r == (self.entries().len() == 0),
    {
        self.entry_count == 0
    }

    /// The size of the block so far: entries, restart offsets, their count and the checksum.
    fn estimated_size(&self) -> (n: u128)
        requires
            self.wf(),
        ensures
            n as nat == block_size(self.entries(), self.interval()),
            n <= usize::MAX + 4 * usize::MAX + 8,
    {
        self.buf.len() as u128 + (self.restarts.len() as u128) * 4 + 4 + 4
    }
}

// ---------------------------------------------------------------------------
// TrackedBlockBuilder
// ---------------------------------------------------------------------------

/// A block builder that also remembers the first and the last key.
pub struct TrackedBlockBuilder {
    inner: BlockBuilder,
    first_key: Option<Vec<u8>>,
    last_key: Option<Vec<u8>>,
}

impl TrackedBlockBuilder {
    /// The entries added so far.
    pub closed spec fn entries(&self) -> Seq<Pair> {
        self.inner.entries()
    }

    /// Entries from one restart point to the next.
    pub closed spec fn interval(&self) -> nat {
        self.inner.interval()
    }

    /// Size that the block should not exceed.
    pub closed spec fn limit(&self) -> nat {
        self.inner.limit()
    }

    /// The builder is well formed, and the keys remembered are those added first and last.
    pub closed spec fn wf(&self) -> bool {
        let entries = self.inner.entries();
        &&& self.inner.wf()
        &&& match self.first_key {
            Some(key) => entries.len() > 0 && key@ == entries[0].0,
            None => entries.len() == 0,
        }
        &&& match self.last_key {
            Some(key) => entries.len() > 0 && key@ == entries.last().0,
            None => entries.len() == 0,
        }
    }

    /// What a well-formed builder guarantees of the block it will give.
    pub proof fn lemma_fits(&self)
        requires
            self.wf(),
        ensures
            self.interval() > 0,
            restarts_fit(self.entries(), self.interval()),
            restart_offsets(self.entries(), self.interval()).len() < 0x1_0000_0000,
    {
        self.inner.lemma_fits();
    }

    /// Creates a builder, as `BlockBuilder::new` does.
    pub fn new(max_block_size: u32, restart_interval: u32) -> (b: Self)
        ensures
            b.wf(),
            b.entries() == Seq::<Pair>::empty(),
            b.limit() == max_block_size,
            b.interval() == if restart_interval == 0 {
                1
            } else {
                restart_interval as nat
            },
    {
        TrackedBlockBuilder {
            inner: BlockBuilder::new(max_block_size, restart_interval),
            first_key: None,
            last_key: None,
        }
    }

    /// Adds an entry, unless the block is full. Returns whether the entry was added.
    pub fn add(&mut self, key: &[u8], value: &[u8]) -> (added: bool)
        requires
            old(self).wf(),
        ensures
            final(self).wf(),
            final(self).interval() == old(self).interval(),
            final(self).limit() == old(self).limit(),
            added == has_room(
                old(self).entries(),
                old(self).interval(),
                old(self).limit(),
                key@,
                value@,
            ),
            added <==> old(self).entries().len() == 0 || block_bytes(
                old(self).entries(),
                old(self).interval(),
            ).len() + 5 + key@.len() + value@.len() <= old(self).limit(),
            final(self).entries() == if added {
                old(self).entries().push((key@, value@))
            } else {
                old(self).entries()
            },
    {
        let added = self.inner.add(key, value);
        if added {
            if self.first_key.is_none() {
                self.first_key = Some(slice_to_vec(key));
            }
            self.last_key = Some(slice_to_vec(key));
        }
        added
    }

    /// Finishes the block. Returns its bytes and its first and last key (empty if the block is).
    pub fn finish(self) -> (r: (Vec<u8>, Vec<u8>, Vec<u8>))
        requires
            self.wf(),
        ensures
            r.0@ == block_bytes(self.entries(), self.interval()),
            self.entries().len() > 0 ==> r.1@ == self.entries()[0].0 && r.2@
                == self.entries().last().0,
            self.entries().len() == 0 ==> r.1@.len() == 0 && r.2@.len() == 0,
    {
        let bytes = self.inner.finish();
        let first = match self.first_key {
            Some(key) => key,
            None => Vec::new(),
        };
        let last = match self.last_key {
            Some(key) => key,
            None => Vec::new(),
        };
        (bytes, first, last)
    }

    /// Number of entries added.
    pub fn entry_count(&self) -> (n: u32)
        requires
            self.wf(),
        ensures
            n as nat == self.entries().len(),
    {
        self.inner.entry_count()
    }

    /// Whether no entry was added.
    pub fn is_empty(&self) -> (r: bool)
        requires
            self.wf(),
        ensures
            r == (self.entries().len() == 0),
    {
        self.inner.is_empty()
    }
}

// ---------------------------------------------------------------------------
// BlockReader
// ---------------------------------------------------------------------------

/// Reads the three lengths at `*pos` and moves behind those that were read.
fn read_lengths_at(data: &[u8], pos: &mut usize) -> (r: Result<(u32, u32, u32), BlockError>)
    requires
        *old(pos) <= data@.len(),
    ensures
        *final(pos) as nat == read_lengths(data@, *old(pos) as nat).0,
        r == read_lengths(data@, *old(pos) as nat).1,
        *final(pos) <= data@.len(),
{
    proof {
        lemma_step_advances(data@, 0, *pos as nat, Seq::empty());
        crate::varint::lemma_parse_varint_bounds(data@.skip(*pos as int));
    }
    assert(data@.subrange(*pos as int, data@.len() as int) =~= data@.skip(*pos as int));
    let (shared, used1) = match decode_varint(slice_subrange(data, *pos, data.len())) {
        Ok(x) => x,
        Err(e) => {
            return Err(e);
        },
    };
    *pos = *pos + used1;
    proof {
        crate::varint::lemma_parse_varint_bounds(data@.skip(*pos as int));
    }
    assert(data@.subrange(*pos as int, data@.len() as int) =~= data@.skip(*pos as int));
    let (unshared, used2) = match decode_varint(slice_subrange(data, *pos, data.len())) {
        Ok(x) => x,
        Err(e) => {
            return Err(e);
        },
    };
    *pos = *pos + used2;
    proof {
        crate::varint::lemma_parse_varint_bounds(data@.skip(*pos as int));
    }
    assert(data@.subrange(*pos as int, data@.len() as int) =~= data@.skip(*pos as int));
    let (value_len, used3) = match decode_varint(slice_subrange(data, *pos, data.len())) {
        Ok(x) => x,
        Err(e) => {
            return Err(e);
        },
    };
    *pos = *pos + used3;
    Ok((shared, unshared, value_len))
}

/// Reads the entry at `*pos`: turns `key` into its key, moves behind it and returns its value.
fn read_entry<'a>(data: &'a [u8], entries_end: usize, pos: &mut usize, key: &mut Vec<u8>) -> (r:
    Result<&'a [u8], BlockError>)
    requires
        *old(pos) <= data@.len(),
        entries_end <= data@.len(),
    ensures
        ({
            let step = read_step(data@, entries_end as nat, *old(pos) as nat, old(key)@);
            &&& *final(pos) as nat == step.pos
            &&& final(key)@ == step.key
            &&& match r {
                Ok(value) => step.outcome == Ok::<Seq<u8>, BlockError>(value@),
                Err(e) => step.outcome == Err::<Seq<u8>, BlockError>(e),
            }
        }),
{
    proof {
        lemma_step_advances(data@, entries_end as nat, *pos as nat, key@);
    }
    let (shared, unshared, value_len) = match read_lengths_at(data, pos) {
        Ok(x) => x,
        Err(e) => {
            return Err(e);
        },
    };
    key.truncate(shared as usize);
    assert(key@ =~= truncated(old(key)@, shared as nat));
    if *pos > entries_end || unshared as usize > entries_end - *pos {
        return Err(BlockError::CorruptedEntry);
    }
    let key_end: usize = *pos + unshared as usize;
    append_slice(key, slice_subrange(data, *pos, key_end));
    *pos = key_end;
    if value_len as usize > entries_end - key_end {
        return Err(BlockError::CorruptedEntry);
    }
    let value_end: usize = key_end + value_len as usize;
    let value = slice_subrange(data, key_end, value_end);
    *pos = value_end;
    Ok(value)
}

/// Reads a block: point lookups and iteration over a byte slice.
pub struct BlockReader<'a> {
    /// The whole block.
    data: &'a [u8],
    /// The restart offsets.
    restarts: Vec<u32>,
    /// Where the entries end.
    entries_end: usize,
}

impl<'a> View for BlockReader<'a> {
    type V = BlockView;

    closed spec fn view(&self) -> BlockView {
        BlockView {
            data: self.data@,
            restarts: self.restarts@,
            entries_end: self.entries_end as nat,
        }
    }
}

impl<'a> BlockReader<'a> {
    #[verifier::type_invariant]
    spec fn inv(self) -> bool {
        self.entries_end <= self.data@.len()
    }

    /// Opens a block after checking its checksum.
    pub fn open(data: &'a [u8]) -> (r: Result<Self, BlockError>)
        ensures
            match r {
                Ok(reader) => open_block(data@) == Ok::<BlockView, BlockError>(reader@),
                Err(e) => open_block(data@) == Err::<BlockView, BlockError>(e),
            },
    {
        let n: usize = data.len();
        if n < 8 {
            return Err(BlockError::BlockTooSmall);
        }
        let crc_at: usize = n - 4;
        let stored: u32 = read_u32(data, crc_at);
        let covered = slice_subrange(data, 0, crc_at);
        assert(covered@ =~= data@.take(n - 4));
        if stored != checksum(covered) {
            return Err(BlockError::ChecksumMismatch);
        }
        let count_at: usize = crc_at - 4;
        let count: u32 = read_u32(data, count_at);
        if count as usize > count_at / 4 {
            return Err(BlockError::BlockTooSmall);
        }
        let entries_end: usize = count_at - 4 * count as usize;
        let ghost end = entries_end as int;
        let mut restarts: Vec<u32> = Vec::with_capacity(count as usize);
        let mut i: usize = 0;
        while i < count as usize
            invariant
                i <= count,
                n == data@.len(),
                entries_end as int == end,
                end + 4 * count as int == n - 8,
                restarts@.len() == i,
                forall|j: int|
                    0 <= j < i ==> #[trigger] restarts@[j] == le_value(
                        data@.subrange(end + 4 * j, end + 4 * j + 4),
                    ) as u32,
            decreases count - i,
        {
            restarts.push(read_u32(data, entries_end + 4 * i));
            i += 1;
        }
        let reader = BlockReader { data, restarts, entries_end };
        assert(reader@.restarts =~= open_block(data@)->Ok_0.restarts);
        Ok(reader)
    }

    /// Looks a key up: binary search over the restart points, then a scan to the next one.
    pub fn get(&self, target: &[u8]) -> (r: Result<Option<&'a [u8]>, BlockError>)
        ensures
            match r {
                Ok(Some(value)) => block_get(self@, target@) == Ok::<Option<Seq<u8>>, BlockError>(
                    Some(value@),
                ),
                Ok(None) => block_get(self@, target@) == Ok::<Option<Seq<u8>>, BlockError>(None),
                Err(e) => block_get(self@, target@) == Err::<Option<Seq<u8>>, BlockError>(e),
            },
    {
        proof {
            use_type_invariant(self);
        }
        let i: usize = match self.find_restart_for_key(target) {
            Ok(i) => i,
            Err(e) => {
                return Err(e);
            },
        };
        if i >= self.restarts.len() || self.restarts[i] as usize >= self.entries_end {
            return Err(BlockError::CorruptedEntry);
        }
        let mut pos: usize = self.restarts[i] as usize;
        let stop: usize = if i < self.restarts.len() - 1 {
            self.restarts[i + 1] as usize
        } else {
            self.entries_end
        };
        let mut key: Vec<u8> = Vec::new();
        while pos < stop
            invariant
                pos <= self.data@.len(),
                self.entries_end <= self.data@.len(),
                block_get(self@, target@) == scan(
                    self.data@,
                    self.entries_end as nat,
                    pos as nat,
                    stop as nat,
                    key@,
                    target@,
                ),
            decreases self.data@.len() - pos,
        {
            proof {
                lemma_step_advances(self.data@, self.entries_end as nat, pos as nat, key@);
            }
            let value = match read_entry(self.data, self.entries_end, &mut pos, &mut key) {
                Ok(value) => value,
                Err(e) => {
                    return Err(e);
                },
            };
            match compare_bytes(key.as_slice(), target) {
                KeyOrder::Equal => {
                    return Ok(Some(value));
                },
                KeyOrder::Greater => {
                    return Ok(None);
                },
                KeyOrder::Less => {},
            }
        }
        Ok(None)
    }

    /// Iterates over all entries in order.
    pub fn iter(&self) -> (it: BlockIterator<'a>)
        ensures
            it.wf(),
            it.data() == self@.data,
            it.entries_end() == self@.entries_end,
            it.pos() == 0,
            it.key() == Seq::<u8>::empty(),
            it.rest() == block_entries(self@),
    {
        proof {
            use_type_invariant(self);
        }
        BlockIterator {
            data: self.data,
            entries_end: self.entries_end,
            pos: 0,
            current_key: Vec::new(),
        }
    }

    /// The restart point from which a scan for `target` must start.
    fn find_restart_for_key(&self, target: &[u8]) -> (r: Result<usize, BlockError>)
        ensures
            match r {
                Ok(i) => search(self@, target@, 0, self@.restarts.len() as int) == Ok::<
                    int,
                    BlockError,
                >(i as int),
                Err(e) => search(self@, target@, 0, self@.restarts.len() as int) == Err::<
                    int,
                    BlockError,
                >(e),
            },
    {
        let mut lo: usize = 0;
        let mut hi: usize = self.restarts.len();
        while lo < hi
            invariant
                lo <= hi <= self.restarts@.len(),
                search(self@, target@, 0, self@.restarts.len() as int) == search(
                    self@,
                    target@,
                    lo as int,
                    hi as int,
                ),
            decreases hi - lo,
        {
            let mid: usize = lo + (hi - lo) / 2;
            let key = match self.decode_key_at_restart(mid) {
                Ok(key) => key,
                Err(e) => {
                    return Err(e);
                },
            };
            match compare_bytes(key.as_slice(), target) {
                KeyOrder::Less => {
                    lo = mid + 1;
                },
                KeyOrder::Equal => {
                    return Ok(mid);
                },
                KeyOrder::Greater => {
                    proof {
                        crate::order::lemma_lex_asymmetric(target@, key@);
                    }
                    hi = mid;
                },
            }
        }
        if lo > 0 {
            Ok(lo - 1)
        } else {
            Ok(0)
        }
    }

    /// The full key at a restart point.
    fn decode_key_at_restart(&self, i: usize) -> (r: Result<Vec<u8>, BlockError>)
        requires
            i < self@.restarts.len(),
        ensures
            match r {
                Ok(key) => restart_key(self@, i as int) == Ok::<Seq<u8>, BlockError>(key@),
                Err(e) => restart_key(self@, i as int) == Err::<Seq<u8>, BlockError>(e),
            },
    {
        proof {
            use_type_invariant(self);
        }
        let mut pos: usize = self.restarts[i] as usize;
        if pos >= self.entries_end {
            return Err(BlockError::CorruptedEntry);
        }
        let (shared, unshared, _value_len) = match read_lengths_at(self.data, &mut pos) {
            Ok(x) => x,
            Err(e) => {
                return Err(e);
            },
        };
        if shared != 0 || pos > self.entries_end || unshared as usize > self.entries_end - pos {
            return Err(BlockError::CorruptedEntry);
        }
        Ok(slice_to_vec(slice_subrange(self.data, pos, pos + unshared as usize)))
    }
}

/// Walks the entries of a block in order.
pub struct BlockIterator<'a> {
    data: &'a [u8],
    entries_end: usize,
    pos: usize,
    current_key: Vec<u8>,
}

impl<'a> BlockIterator<'a> {
    /// The whole block.
    pub closed spec fn data(&self) -> Seq<u8> {
        self.data@
    }

    /// Where the entries end.
    pub closed spec fn entries_end(&self) -> nat {
        self.entries_end as nat
    }

    /// Where the next entry begins.
    pub closed spec fn pos(&self) -> nat {
        self.pos as nat
    }

    /// The key of the entry before it.
    pub closed spec fn key(&self) -> Seq<u8> {
        self.current_key@
    }

    /// The positions lie inside the block.
    pub closed spec fn wf(&self) -> bool {
        self.entries_end <= self.data@.len() && self.pos <= self.data@.len()
    }

    /// The entries still to come.
    pub open spec fn rest(&self) -> Result<Seq<Pair>, BlockError> {
        read_entries(self.data(), self.entries_end(), self.pos(), self.key())
    }

    /// The next entry, `None` at the end, or why the next entry cannot be read.
    pub fn next(&mut self) -> (r: Option<Result<(Vec<u8>, &'a [u8]), BlockError>>)
        requires
            old(self).wf(),
        ensures
            final(self).wf(),
            final(self).data() == old(self).data(),
            final(self).entries_end() == old(self).entries_end(),
            r is None <==> old(self).pos() >= old(self).entries_end(),
            r is None ==> *final(self) == *old(self) && old(self).rest() == Ok::<
                Seq<Pair>,
                BlockError,
            >(Seq::empty()),
            r is Some ==> {
                let step = read_step(
                    old(self).data(),
                    old(self).entries_end(),
                    old(self).pos(),
                    old(self).key(),
                );
                &&& final(self).pos() == step.pos
                &&& final(self).key() == step.key
                &&& match r->Some_0 {
                    Ok((key, value)) => {
                        &&& key@ == step.key
                        &&& step.outcome == Ok::<Seq<u8>, BlockError>(value@)
                        &&& old(self).pos() < step.pos <= old(self).entries_end()
                        &&& old(self).rest() == match final(self).rest() {
                            Ok(rest) => Ok::<Seq<Pair>, BlockError>(seq![(key@, value@)] + rest),
                            Err(e) => Err(e),
                        }
                    },
                    Err(e) => {
                        &&& step.outcome == Err::<Seq<u8>, BlockError>(e)
                        &&& old(self).rest() == Err::<Seq<Pair>, BlockError>(e)
                    },
                }
            },
    {
        if self.pos >= self.entries_end {
            return None;
        }
        proof {
            lemma_step_advances(
                self.data@,
                self.entries_end as nat,
                self.pos as nat,
                self.current_key@,
            );
        }
        match read_entry(self.data, self.entries_end, &mut self.pos, &mut self.current_key) {
            Ok(value) => {
                let key = slice_to_vec(self.current_key.as_slice());
                Some(Ok((key, value)))
            },
            Err(e) => Some(Err(e)),
        }
    }
}

} // verus!
