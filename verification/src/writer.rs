//! Segment writer: builds a complete segment from sorted entries.

use vstd::prelude::*;
use vstd::slice::slice_to_vec;
use crate::block::TrackedBlockBuilder;
use crate::bloom::{build_filter, filter_admits, filter_of};
use crate::bytes::append_slice;
use crate::directory::{built, directory_holds, fst_encoding, slots_view, Directory};
use crate::format::{
    Footer, SegmentMeta, DEFAULT_BLOCK_SIZE, DEFAULT_RESTART_INTERVAL, FORMAT_VERSION,
};
use crate::order::{ascending, compare_bytes, lex_less, KeyOrder, Pair};
use crate::segment_model::{
    assembled, blocks_of, data_of, directory_of, keys_of, segment_bytes, segment_written,
};
use crate::segment_proof::{
    block_fits, lemma_blocks, lemma_directory_ascends, lemma_push_block, lemma_push_entry,
    lemma_segment_written,
};

verus! {

/// Options of the segment writer.
#[derive(Debug, Clone, Copy, PartialEq, Eq, Structural)]
pub struct SegmentWriterOptions {
    /// Size in bytes that blocks should have.
    pub block_size: u32,
    /// Entries from one restart point to the next.
    pub restart_interval: u32,
    /// Whether to build a membership filter.
    pub enable_bloom: bool,
}

impl SegmentWriterOptions {
    /// Entries from one restart point to the next; at least one.
    pub open spec fn interval(self) -> nat {
        if self.restart_interval == 0 {
            1
        } else {
            self.restart_interval as nat
        }
    }
}

impl Default for SegmentWriterOptions {
    fn default() -> (opts: Self)
        ensures
            opts == (SegmentWriterOptions {
                block_size: DEFAULT_BLOCK_SIZE,
                restart_interval: DEFAULT_RESTART_INTERVAL,
                enable_bloom: true,
            }),
            opts.block_size == 65536 && opts.restart_interval == 16 && opts.enable_bloom,
    {
        SegmentWriterOptions {
            block_size: DEFAULT_BLOCK_SIZE,
            restart_interval: DEFAULT_RESTART_INTERVAL,
            enable_bloom: true,
        }
    }
}

/// A finished segment.
#[derive(Debug)]
pub struct SegmentOutput {
    /// The complete segment.
    pub data: Vec<u8>,
    /// Metadata for the manifest.
    pub meta: SegmentMeta,
}

/// Why a segment cannot be written.
#[derive(Debug)]
pub enum WriterError {
    /// A key comes before the one added last.
    KeysOutOfOrder,
    /// A key is the one added last.
    DuplicateKey,
    /// Nothing was added.
    EmptySegment,
    /// The directory could not be built.
    FstBuildError(String),
}

impl WriterError {
    /// The text of the error.
    pub open spec fn text(&self) -> Seq<char> {
        match self {
            WriterError::KeysOutOfOrder =>
                "Keys must be added in strictly ascending sorted order"@,
            WriterError::DuplicateKey => "Duplicate key detected"@,
            WriterError::EmptySegment => "Cannot finish an empty segment (no entries added)"@,
            WriterError::FstBuildError(e) => "FST build error: "@ + e@,
        }
    }

    /// Describes the error.
    pub fn message(&self) -> (r: String)
        ensures
            r@ == self.text(),
    {
        match self {
            WriterError::KeysOutOfOrder => String::from_str(
                "Keys must be added in strictly ascending sorted order",
            ),
            WriterError::DuplicateKey => String::from_str("Duplicate key detected"),
            WriterError::EmptySegment => String::from_str(
                "Cannot finish an empty segment (no entries added)",
            ),
            WriterError::FstBuildError(e) => String::from_str("FST build error: ").concat(
                e.as_str(),
            ),
        }
    }
}

/// What the errors of writers say.
pub proof fn law_writer_error_texts(e: WriterError)
    ensures
        e is KeysOutOfOrder ==> e.text()
            == "Keys must be added in strictly ascending sorted order"@,
        e is DuplicateKey ==> e.text() == "Duplicate key detected"@,
        e is EmptySegment ==> e.text() == "Cannot finish an empty segment (no entries added)"@,
        e matches WriterError::FstBuildError(text) ==> e.text() == "FST build error: "@ + text@,
{
}

/// The keys of a list in memory.
spec fn key_views(keys: Seq<Vec<u8>>) -> Seq<Seq<u8>> {
    keys.map_values(|k: Vec<u8>| k@)
}

/// Puts a segment together: data blocks, filter, directory and the footer over them.
fn assemble(data: Vec<u8>, filter: &[u8], directory: &[u8], key_count: u32) -> (out: Vec<u8>)
    ensures
        out@ == assembled(data@, filter@, directory@, key_count as nat),
{
    let mut out: Vec<u8> = data;
    let bloom_offset: u64 = out.len() as u64;
    append_slice(&mut out, filter);
    let fst_offset: u64 = out.len() as u64;
    append_slice(&mut out, directory);
    let footer = Footer {
        format_version: FORMAT_VERSION,
        data_blocks_offset: 0,
        data_blocks_length: bloom_offset,
        bloom_offset,
        bloom_length: filter.len() as u64,
        fst_offset,
        fst_length: directory.len() as u64,
        key_count,
        checksum: 0,
    };
    append_slice(&mut out, footer.to_bytes().as_slice());
    out
}

/// Builds a segment from entries that come in strictly ascending order of their keys.
pub struct SegmentWriter {
    opts: SegmentWriterOptions,
    /// The finished blocks.
    data_blocks: Vec<u8>,
    /// The last key and the offset of each finished block.
    fst_entries: Vec<(Vec<u8>, u64)>,
    /// All keys, if there will be a filter.
    all_keys: Vec<Vec<u8>>,
    /// The block being filled.
    current_block: TrackedBlockBuilder,
    /// Entries added.
    key_count: u32,
    /// The first key added.
    first_key: Option<Vec<u8>>,
    /// The last key added.
    last_key: Option<Vec<u8>>,
    /// The entries added.
    entries: Ghost<Seq<Pair>>,
}

impl SegmentWriter {
    /// The entries added so far.
    pub closed spec fn entries(&self) -> Seq<Pair> {
        self.entries@
    }

    /// The options the writer was created with.
    pub closed spec fn options(&self) -> SegmentWriterOptions {
        self.opts
    }

    /// `blocks` are finished and the others are not.
    spec fn finished(&self, blocks: Seq<Seq<Pair>>) -> bool {
        &&& self.data_blocks@ == data_of(blocks, self.opts.interval())
        &&& slots_view(self.fst_entries@) == directory_of(blocks, self.opts.interval())
        &&& forall|i: int|
            0 <= i < blocks.len() ==> block_fits(#[trigger] blocks[i], self.opts.interval())
    }

    /// The block being filled is one of this writer.
    spec fn filling(&self, block: Seq<Pair>) -> bool {
        &&& self.current_block.wf()
        &&& self.current_block.interval() == self.opts.interval()
        &&& self.current_block.limit() == self.opts.block_size
        &&& self.current_block.entries() == block
    }

    /// The buffers hold what the entries call for, and the entries are in order.
    pub closed spec fn wf(&self) -> bool {
        let entries = self.entries@;
        let n = entries.len();
        let blocks = blocks_of(entries, self.opts.interval(), self.opts.block_size as nat);
        &&& ascending(entries)
        &&& self.key_count as nat == n
        &&& if n == 0 {
            &&& self.finished(Seq::empty())
            &&& self.filling(Seq::empty())
        } else {
            &&& blocks.len() > 0
            &&& self.finished(blocks.drop_last())
            &&& self.filling(blocks.last())
        }
        &&& key_views(self.all_keys@) == if self.opts.enable_bloom {
            keys_of(entries)
        } else {
            Seq::empty()
        }
        &&& match self.first_key {
            Some(key) => n > 0 && key@ == entries[0].0,
            None => n == 0,
        }
        &&& match self.last_key {
            Some(key) => n > 0 && key@ == entries.last().0,
            None => n == 0,
        }
    }

    /// Creates a writer.
    pub fn new(opts: SegmentWriterOptions) -> (w: Self)
        ensures
            w.wf(),
            w.entries() == Seq::<Pair>::empty(),
            w.options() == opts,
    {
        let w = SegmentWriter {
            opts,
            data_blocks: Vec::new(),
            fst_entries: Vec::new(),
            all_keys: Vec::new(),
            current_block: TrackedBlockBuilder::new(opts.block_size, opts.restart_interval),
            key_count: 0,
            first_key: None,
            last_key: None,
            entries: Ghost(Seq::empty()),
        };
        assert(slots_view(w.fst_entries@) =~= directory_of(Seq::empty(), opts.interval()));
        assert(key_views(w.all_keys@) =~= Seq::empty());
        assert(keys_of(w.entries@) =~= Seq::empty());
        w
    }

    /// Adds an entry. The key must come strictly after the one added last; any other is refused and
    /// leaves the writer as it was. Keys are counted in 32 bits, and no more can be added.
    pub fn add(&mut self, key: &[u8], value: &[u8]) -> (r: Result<(), WriterError>)
        requires
            old(self).wf(),
            old(self).entries().len() == 0 || lex_less(old(self).entries().last().0, key@)
                ==> old(self).entries().len() < u32::MAX,
        ensures
            final(self).wf(),
            final(self).options() == old(self).options(),
            final(self).entries() == if r is Ok {
                old(self).entries().push((key@, value@))
            } else {
                old(self).entries()
            },
            r is Ok <==> old(self).entries().len() == 0 || lex_less(
                old(self).entries().last().0,
                key@,
            ),
            match r {
                Ok(_) => true,
                Err(WriterError::KeysOutOfOrder) => lex_less(key@, old(self).entries().last().0),
                Err(WriterError::DuplicateKey) => key@ == old(self).entries().last().0,
                Err(_) => false,
            },
    {
        if let Some(last) = &self.last_key {
            match compare_bytes(key, last.as_slice()) {
                KeyOrder::Less => {
                    proof {
                        crate::order::lemma_lex_asymmetric(key@, last@);
                    }
                    return Err(WriterError::KeysOutOfOrder);
                },
                KeyOrder::Equal => {
                    proof {
                        crate::order::lemma_lex_irreflexive(key@);
                    }
                    return Err(WriterError::DuplicateKey);
                },
                KeyOrder::Greater => {},
            }
        }
        let ghost before = self.entries@;
        let ghost after = before.push((key@, value@));
        let ghost interval = self.opts.interval();
        let ghost limit = self.opts.block_size as nat;
        let ghost blocks = blocks_of(before, interval, limit);
        proof {
            lemma_push_entry(before, (key@, value@), interval, limit);
            assert(after.drop_last() =~= before);
        }
        if self.first_key.is_none() {
            self.first_key = Some(slice_to_vec(key));
        }
        self.last_key = Some(slice_to_vec(key));
        if self.opts.enable_bloom {
            self.all_keys.push(slice_to_vec(key));
            assert(key_views(self.all_keys@) =~= keys_of(before).push(key@));
            assert(keys_of(after) =~= keys_of(before).push(key@));
        }
        if !self.current_block.add(key, value) {
            self.flush_block(Ghost(blocks.drop_last()));
            assert(blocks.drop_last().push(blocks.last()) =~= blocks);
            let added = self.current_block.add(key, value);
            assert(added);
            assert(self.current_block.entries() =~= seq![(key@, value@)]);
            assert(blocks_of(after, interval, limit).drop_last() =~= blocks);
        } else {
            proof {
                if before.len() > 0 {
                    assert(blocks_of(after, interval, limit).drop_last() =~= blocks.drop_last());
                } else {
                    assert(self.current_block.entries() =~= seq![(key@, value@)]);
                    assert(blocks_of(after, interval, limit).drop_last() =~= Seq::empty());
                }
            }
        }
        self.key_count = self.key_count + 1;
        self.entries = Ghost(after);
        Ok(())
    }

    /// Finishes the segment. At least one entry must have been added.
    ///
    /// Generation and path of the metadata are for the caller to fill in. Keys and values whose
    /// lengths take more than 32 bits cannot be read back.
    pub fn finish(self) -> (r: Result<SegmentOutput, WriterError>)
        requires
            self.wf(),
        ensures
            match r {
                Ok(out) => {
                    let entries = self.entries();
                    &&& entries.len() > 0
                    &&& segment_written(out.data@, entries, self.options())
                    &&& out.meta.generation == 0
                    &&& out.meta.path@ == Seq::<char>::empty()
                    &&& out.meta.size_bytes == out.data@.len()
                    &&& out.meta.key_count == entries.len()
                    &&& out.meta.min_key@ == entries[0].0
                    &&& out.meta.max_key@ == entries.last().0
                },
                Err(e) => self.entries().len() == 0 && e is EmptySegment,
            },
    {
        let mut w = self;
        let (min_key, max_key) = match (w.first_key.take(), w.last_key.take()) {
            (Some(first), Some(last)) => (first, last),
            _ => {
                return Err(WriterError::EmptySegment);
            },
        };
        let ghost entries = w.entries@;
        let ghost interval = w.opts.interval();
        let ghost limit = w.opts.block_size as nat;
        let ghost blocks = blocks_of(entries, interval, limit);
        w.flush_block(Ghost(blocks.drop_last()));
        proof {
            lemma_blocks(entries, interval, limit);
            assert(blocks.drop_last().push(blocks.last()) =~= blocks);
            lemma_directory_ascends(blocks, interval);
        }
        assert(key_views(w.all_keys@).len() == w.all_keys@.len());
        assert(keys_of(entries).len() == entries.len());
        let filter: Vec<u8> = w.build_bloom();
        assert forall|i: int| 0 <= i < entries.len() implies filter_admits(
            filter@,
            (#[trigger] entries[i]).0,
        ) by {
            if w.opts.enable_bloom {
                assert(key_views(w.all_keys@)[i] == keys_of(entries)[i]);
                assert(w.all_keys@[i]@ == entries[i].0);
            }
        }
        let directory = match w.build_fst() {
            Ok(directory) => directory,
            Err(e) => {
                return Err(e);
            },
        };
        proof {
            reveal(segment_bytes);
        }
        let output = assemble(w.data_blocks, filter.as_slice(), directory.as_slice(), w.key_count);
        let size_bytes: u64 = output.len() as u64;
        assert(size_bytes == output@.len());
        proof {
            lemma_segment_written(entries, w.opts);
        }
        let meta = SegmentMeta {
            generation: 0,
            path: String::new(),
            size_bytes,
            key_count: w.key_count,
            min_key,
            max_key,
        };
        Ok(SegmentOutput { data: output, meta })
    }

    /// Builds the filter over the keys collected; without keys it is empty and admits all.
    fn build_bloom(&self) -> (filter: Vec<u8>)
        requires
            self.all_keys@.len() <= u32::MAX,
        ensures
            filter@ == filter_of(key_views(self.all_keys@)),
            forall|i: int|
                0 <= i < self.all_keys@.len() ==> filter_admits(
                    filter@,
                    (#[trigger] self.all_keys@[i])@,
                ),
    {
        let mut keys: Vec<&[u8]> = Vec::with_capacity(self.all_keys.len());
        let mut i: usize = 0;
        while i < self.all_keys.len()
            invariant
                i <= self.all_keys@.len(),
                keys@.len() == i,
                forall|j: int| 0 <= j < i ==> (#[trigger] keys@[j])@ == self.all_keys@[j]@,
            decreases self.all_keys@.len() - i,
        {
            keys.push(self.all_keys[i].as_slice());
            i += 1;
        }
        assert(keys@.map_values(|k: &[u8]| k@) =~= key_views(self.all_keys@));
        let filter = build_filter(keys.as_slice());
        assert forall|j: int| 0 <= j < self.all_keys@.len() implies filter_admits(
            filter@,
            (#[trigger] self.all_keys@[j])@,
        ) by {
            assert(filter_admits(filter@, keys@[j]@));
        }
        filter
    }

    /// Builds the directory of the finished blocks.
    fn build_fst(&self) -> (r: Result<Vec<u8>, WriterError>)
        ensures
            match r {
                Ok(data) => {
                    &&& ascending(slots_view(self.fst_entries@))
                    &&& data@ == fst_encoding(
                        3,
                        usize::MAX as nat,
                        slots_view(self.fst_entries@),
                    )
                    &&& directory_holds(data@, slots_view(self.fst_entries@))
                    &&& built(data@)
                },
                Err(e) => {
                    &&& !ascending(slots_view(self.fst_entries@))
                    &&& e matches WriterError::FstBuildError(text) && text@ == "FST error"@
                },
            },
    {
        match Directory::build(&self.fst_entries) {
            Ok(data) => Ok(data),
            Err(text) => Err(WriterError::FstBuildError(text)),
        }
    }

    /// Finishes the block being filled, behind the finished ones, and starts the next.
    fn flush_block(&mut self, blocks: Ghost<Seq<Seq<Pair>>>)
        requires
            old(self).finished(blocks@),
            old(self).filling(old(self).current_block.entries()),
            old(self).current_block.entries().len() > 0,
        ensures
            final(self).finished(blocks@.push(old(self).current_block.entries())),
            final(self).filling(Seq::empty()),
            final(self).opts == old(self).opts,
            final(self).all_keys == old(self).all_keys,
            final(self).key_count == old(self).key_count,
            final(self).first_key == old(self).first_key,
            final(self).last_key == old(self).last_key,
            final(self).entries == old(self).entries,
    {
        let ghost interval = self.opts.interval();
        let ghost more = blocks@.push(self.current_block.entries());
        let block_offset: u64 = self.data_blocks.len() as u64;
        let mut block = TrackedBlockBuilder::new(self.opts.block_size, self.opts.restart_interval);
        std::mem::swap(&mut self.current_block, &mut block);
        proof {
            block.lemma_fits();
        }
        let (block_bytes, _first_key, last_key) = block.finish();
        self.fst_entries.push((last_key, block_offset));
        append_slice(&mut self.data_blocks, block_bytes.as_slice());
        proof {
            lemma_push_block(blocks@, more.last(), interval);
            assert(slots_view(self.fst_entries@) =~= slots_view(old(self).fst_entries@).push(
                (more.last().last().0, block_offset),
            ));
            assert forall|i: int| 0 <= i < more.len() implies block_fits(
                #[trigger] more[i],
                interval,
            ) by {
                if i < blocks@.len() {
                    assert(more[i] == blocks@[i]);
                }
            }
        }
    }
}

} // verus!
