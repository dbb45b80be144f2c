//! Segment reader: point lookups and iteration.
//!
//! ```text
//! key -> filter -> directory -> block offset -> block -> binary search
//! ```
//!
//! `SegmentReader` holds a whole segment. `SegmentMetadata` holds what lies behind the data blocks;
//! with it, a lookup in stored data takes one read of one block.

use vstd::prelude::*;
use vstd::slice::{slice_subrange, slice_to_vec};
use crate::block::{BlockError, BlockReader};
use crate::block_model::{block_entries, open_block};
use crate::bloom::{filter_admits, might_contain};
use crate::directory::{directory_genuine, fst_at_least, fst_entries, slots_view, Directory};
use crate::format::{Footer, FormatError, FOOTER_SIZE};
use crate::numerals::{append_decimal, decimal};
use crate::order::Pair;
use crate::segment_model::{
    block_at, block_end, block_lookup, block_range, directory_in, entries_in, load_footer,
    load_metadata, metadata_of, open_segment, open_tail, plan_of, section_fault, sections_fault,
    segment_entries, segment_genuine, segment_get, segment_written, tail_genuine, Fault, LookupPlan,
    MetadataView, SegmentView,
};
use crate::segment_proof::{law_genuine_tail, law_tail_of_written, lemma_written_footer};
use crate::storage::StorageError;
use crate::writer::{SegmentOutput, SegmentWriter, WriterError};

verus! {

/// How many bytes to read from the end of a stored segment, by default: 256 KB.
pub const DEFAULT_TAIL_READ_BUDGET: u64 = 262144;

/// Why a segment cannot be read.
#[derive(Debug)]
pub enum ReaderError {
    /// The footer is damaged or missing.
    Format(FormatError),
    /// A block is damaged.
    Block(BlockError),
    /// The directory is damaged.
    FstError(String),
    /// The directory gives an offset at which there is no block.
    InvalidBlockOffset(u64),
    /// The footer gives a section that does not lie within the segment.
    InvalidOffset { section: &'static str, offset: u64, length: u64, segment_size: u64 },
    /// The bytes read from the end of the segment do not reach back to the filter.
    TailTooSmall { needed: usize, got: usize },
    /// The storage did not deliver.
    Storage(StorageError),
}

impl View for ReaderError {
    type V = Fault;

    open spec fn view(&self) -> Fault {
        match self {
            ReaderError::Format(e) => Fault::Format(*e),
            ReaderError::Block(e) => Fault::Block(*e),
            ReaderError::FstError(text) => Fault::FstError(text@),
            ReaderError::InvalidBlockOffset(offset) => Fault::InvalidBlockOffset(*offset),
            ReaderError::InvalidOffset { section, offset, length, segment_size } =>
                Fault::InvalidOffset {
                    section: section@,
                    offset: *offset,
                    length: *length,
                    segment_size: *segment_size,
                },
            ReaderError::TailTooSmall { needed, got } => Fault::TailTooSmall {
                needed: *needed,
                got: *got,
            },
            ReaderError::Storage(e) => Fault::Storage(e@),
        }
    }
}

impl ReaderError {
    /// The text of the error.
    pub open spec fn text(&self) -> Seq<char> {
        match self {
            ReaderError::Format(e) => "Format error: "@ + e.text(),
            ReaderError::Block(e) => "Block error: "@ + e.text(),
            ReaderError::FstError(e) => "FST error: "@ + e@,
            ReaderError::InvalidBlockOffset(offset) => "Invalid block offset: "@ + decimal(
                *offset as nat,
            ),
            ReaderError::InvalidOffset { section, offset, length, segment_size } =>
                "Invalid offset of section "@ + section@ + ": "@ + decimal(*offset as nat)
                    + " with length "@ + decimal(*length as nat) + " in a segment of "@ + decimal(
                    *segment_size as nat,
                ) + " bytes"@,
            ReaderError::TailTooSmall { needed, got } => "Tail read too small: needed "@ + decimal(
                *needed as nat,
            ) + " bytes but only read "@ + decimal(*got as nat),
            ReaderError::Storage(e) => "Storage error: "@ + e.text(),
        }
    }

    /// Describes the error.
    pub fn message(&self) -> (r: String)
        ensures
            r@ == self.text(),
    {
        match self {
            ReaderError::Format(e) => String::from_str("Format error: ").concat(
                e.message().as_str(),
            ),
            ReaderError::Block(e) => String::from_str("Block error: ").concat(e.message().as_str()),
            ReaderError::FstError(e) => String::from_str("FST error: ").concat(e.as_str()),
            ReaderError::InvalidBlockOffset(offset) => {
                let mut text = String::from_str("Invalid block offset: ");
                append_decimal(&mut text, *offset);
                text
            },
            ReaderError::InvalidOffset { section, offset, length, segment_size } => {
                let mut text = String::from_str("Invalid offset of section ");
                text.append(section);
                text.append(": ");
                append_decimal(&mut text, *offset);
                text.append(" with length ");
                append_decimal(&mut text, *length);
                text.append(" in a segment of ");
                append_decimal(&mut text, *segment_size);
                text.append(" bytes");
                text
            },
            ReaderError::TailTooSmall { needed, got } => {
                let mut text = String::from_str("Tail read too small: needed ");
                append_decimal(&mut text, *needed as u64);
                text.append(" bytes but only read ");
                append_decimal(&mut text, *got as u64);
                text
            },
            ReaderError::Storage(e) => String::from_str("Storage error: ").concat(
                e.message().as_str(),
            ),
        }
    }

    /// Whether the segment itself is damaged, so that reading it again is of no use.
    pub fn is_corruption(&self) -> (r: bool)
        ensures
            r == !(self is TailTooSmall || self is Storage),
    {
        match self {
            ReaderError::Format(_) => true,
            ReaderError::Block(_) => true,
            ReaderError::FstError(_) => true,
            ReaderError::InvalidBlockOffset(_) => true,
            ReaderError::InvalidOffset { .. } => true,
            ReaderError::TailTooSmall { .. } => false,
            ReaderError::Storage(_) => false,
        }
    }

    /// Whether the storage failed, so that reading again may succeed.
    pub fn is_transient(&self) -> (r: bool)
        ensures
            r == (self is Storage),
    {
        match self {
            ReaderError::Storage(_) => true,
            _ => false,
        }
    }
}

/// The result of an operation, as the model has it.
pub open spec fn outcome<T: View>(r: Result<T, ReaderError>) -> Result<T::V, Fault> {
    match r {
        Ok(x) => Ok(x@),
        Err(e) => Err(e@),
    }
}

/// The value that a lookup found, as the model has it.
pub open spec fn found(r: Result<Option<Vec<u8>>, ReaderError>) -> Result<
    Option<Seq<u8>>,
    Fault,
> {
    match r {
        Ok(Some(value)) => Ok(Some(value@)),
        Ok(None) => Ok(None),
        Err(e) => Err(e@),
    }
}

/// The entries of a list in memory.
pub open spec fn pairs_view(entries: Seq<(Vec<u8>, Vec<u8>)>) -> Seq<Pair> {
    entries.map_values(|e: (Vec<u8>, Vec<u8>)| (e.0@, e.1@))
}

/// The model of a result says what the result says: a value is a value, nothing is nothing, and an
/// error is that error.
pub proof fn law_results(
    r: Result<Option<Vec<u8>>, ReaderError>,
    opened: Result<SegmentMetadata, ReaderError>,
    entries: Seq<(Vec<u8>, Vec<u8>)>,
)
    ensures
        r matches Ok(Some(value)) ==> found(r) == Ok::<Option<Seq<u8>>, Fault>(Some(value@)),
        r matches Ok(None) ==> found(r) == Ok::<Option<Seq<u8>>, Fault>(None),
        r matches Err(e) ==> found(r) == Err::<Option<Seq<u8>>, Fault>(e@),
        opened matches Ok(m) ==> outcome(opened) == Ok::<MetadataView, Fault>(m@),
        opened matches Ok(m) ==> m@.footer == m.footer && m@.filter == m.bloom_bytes@
            && m@.directory == m.fst@,
        opened matches Err(e) ==> outcome(opened) == Err::<MetadataView, Fault>(e@),
        pairs_view(entries).len() == entries.len(),
        forall|i: int|
            0 <= i < entries.len() ==> #[trigger] pairs_view(entries)[i] == (
                entries[i].0@,
                entries[i].1@,
            ),
{
}

/// What the errors of readers say: what kind they are, and what the error behind them says.
pub proof fn law_reader_error_texts(e: ReaderError)
    ensures
        e matches ReaderError::Format(x) ==> e.text() == "Format error: "@ + x.text(),
        e matches ReaderError::Block(x) ==> e.text() == "Block error: "@ + x.text(),
        e matches ReaderError::FstError(text) ==> e.text() == "FST error: "@ + text@,
        e matches ReaderError::InvalidBlockOffset(offset) ==> e.text()
            == "Invalid block offset: "@ + decimal(offset as nat),
        e matches ReaderError::InvalidOffset { section, offset, length, segment_size } ==> e.text()
            == "Invalid offset of section "@ + section@ + ": "@ + decimal(offset as nat)
            + " with length "@ + decimal(length as nat) + " in a segment of "@ + decimal(
            segment_size as nat,
        ) + " bytes"@,
        e matches ReaderError::TailTooSmall { needed, got } ==> e.text()
            == "Tail read too small: needed "@ + decimal(needed as nat) + " bytes but only read "@
            + decimal(got as nat),
        e matches ReaderError::Storage(x) ==> e.text() == "Storage error: "@ + x.text(),
{
}

/// The model of an error has its kind and its fields.
pub proof fn law_faults(e: ReaderError)
    ensures
        e matches ReaderError::Format(x) ==> e@ == Fault::Format(x),
        e matches ReaderError::Block(x) ==> e@ == Fault::Block(x),
        e matches ReaderError::FstError(text) ==> e@ == Fault::FstError(text@),
        e matches ReaderError::InvalidBlockOffset(offset) ==> e@ == Fault::InvalidBlockOffset(
            offset,
        ),
        e matches ReaderError::InvalidOffset { section, offset, length, segment_size } ==> e@ == (
        Fault::InvalidOffset { section: section@, offset, length, segment_size }),
        e matches ReaderError::TailTooSmall { needed, got } ==> e@ == (Fault::TailTooSmall {
            needed,
            got,
        }),
        e matches ReaderError::Storage(x) ==> e@ == Fault::Storage(x@),
{
}

// ---------------------------------------------------------------------------
// Parts of opening
// ---------------------------------------------------------------------------

/// Reads the footer at the end of `data`.
fn read_footer(data: &[u8]) -> (r: Result<Footer, ReaderError>)
    ensures
        match r {
            Ok(f) => load_footer(data@) == Ok::<Footer, Fault>(f),
            Err(e) => load_footer(data@) == Err::<Footer, Fault>(e@),
        },
{
    if data.len() < FOOTER_SIZE {
        return Err(ReaderError::Format(FormatError::TooSmall { size: data.len() as u64 }));
    }
    let start: usize = data.len() - FOOTER_SIZE;
    let mut buf: [u8; 64] = [0u8;64];
    let mut i: usize = 0;
    while i < FOOTER_SIZE
        invariant
            i <= FOOTER_SIZE,
            start + FOOTER_SIZE == data@.len(),
            data@.len() <= usize::MAX,
            buf@.len() == FOOTER_SIZE,
            forall|j: int| 0 <= j < i ==> buf@[j] == data@[start + j],
        decreases FOOTER_SIZE - i,
    {
        buf[i] = data[start + i];
        i += 1;
    }
    assert(buf@ =~= data@.skip(data@.len() - 64));
    match Footer::from_bytes(&buf) {
        Ok(f) => Ok(f),
        Err(e) => Err(ReaderError::Format(e)),
    }
}

/// Checks that a section lies within a segment of `segment_size` bytes.
fn check_section(section: &'static str, offset: u64, length: u64, segment_size: u64) -> (r: Result<
    (),
    ReaderError,
>)
    ensures
        match r {
            Ok(_) => section_fault(section@, offset, length, segment_size) is None,
            Err(e) => section_fault(section@, offset, length, segment_size) == Some(e@),
        },
{
    if offset > segment_size || length > segment_size - offset {
        Err(ReaderError::InvalidOffset { section, offset, length, segment_size })
    } else {
        Ok(())
    }
}

/// Checks that all sections of a footer lie within a segment of `segment_size` bytes.
fn check_sections(f: &Footer, segment_size: u64) -> (r: Result<(), ReaderError>)
    ensures
        match r {
            Ok(_) => sections_fault(*f, segment_size) is None,
            Err(e) => sections_fault(*f, segment_size) == Some(e@),
        },
{
    match check_section("data_blocks", f.data_blocks_offset, f.data_blocks_length, segment_size) {
        Ok(_) => {},
        Err(e) => {
            return Err(e);
        },
    }
    if f.bloom_length > 0 {
        match check_section("bloom", f.bloom_offset, f.bloom_length, segment_size) {
            Ok(_) => {},
            Err(e) => {
                return Err(e);
            },
        }
    }
    check_section("fst", f.fst_offset, f.fst_length, segment_size)
}

/// Takes filter and directory out of `data`, the segment from the offset `base` to its end.
fn read_metadata(data: &[u8], base: u64, footer: Footer) -> (r: Result<
    SegmentMetadata,
    ReaderError,
>)
    requires
        sections_fault(footer, (base + data@.len()) as u64) is None,
        base + data@.len() <= u64::MAX,
        footer.bloom_length > 0 ==> base <= footer.bloom_offset,
        base <= footer.fst_offset,
        directory_genuine(directory_in(data@, base, footer)),
    ensures
        outcome(r) == load_metadata(data@, base, footer),
{
    let n: usize = data.len();
    assert(n == data@.len());
    let bloom_bytes: Vec<u8> = if footer.bloom_length > 0 {
        let start: usize = (footer.bloom_offset - base) as usize;
        slice_to_vec(slice_subrange(data, start, start + footer.bloom_length as usize))
    } else {
        Vec::new()
    };
    let start: usize = (footer.fst_offset - base) as usize;
    let fst_bytes = slice_to_vec(slice_subrange(data, start, start + footer.fst_length as usize));
    match Directory::open(fst_bytes) {
        Ok(fst) => Ok(SegmentMetadata { footer, fst, bloom_bytes }),
        Err(text) => Err(ReaderError::FstError(text)),
    }
}

// ---------------------------------------------------------------------------
// SegmentMetadata
// ---------------------------------------------------------------------------

/// What a reader keeps of a segment besides its data blocks: read once, used for many lookups.
#[derive(Debug)]
pub struct SegmentMetadata {
    pub footer: Footer,
    pub fst: Directory,
    pub bloom_bytes: Vec<u8>,
}

impl View for SegmentMetadata {
    type V = MetadataView;

    open spec fn view(&self) -> MetadataView {
        MetadataView { footer: self.footer, directory: self.fst@, filter: self.bloom_bytes@ }
    }
}

impl SegmentMetadata {
    /// Whether the filter admits a key. Keys of the segment are always admitted.
    pub fn might_contain(&self, key: &[u8]) -> (r: bool)
        ensures
            r == filter_admits(self@.filter, key@),
    {
        might_contain(self.bloom_bytes.as_slice(), key)
    }

    /// The offset of the block that would hold a key; none if the key comes after all keys.
    pub fn block_offset_for_key(&self, key: &[u8]) -> (r: Option<u64>)
        ensures
            r == fst_at_least(self@.directory, key@),
    {
        self.fst.at_least(key)
    }

    /// The byte range of the block at an offset, as the directory has it; none if the offset is not
    /// in the data.
    pub fn block_byte_range(&self, block_offset: u64) -> (r: Option<(u64, u64)>)
        ensures
            r == block_range(self@, block_offset),
    {
        let data_end: u64 = self.footer.data_blocks_length;
        if block_offset >= data_end {
            return None;
        }
        let slots = self.fst.entries();
        Some((block_offset, find_block_end(&slots, block_offset, data_end)))
    }

    /// Decides what has to be read to look a key up.
    pub fn plan_lookup(&self, key: &[u8]) -> (r: LookupPlan)
        ensures
            r == plan_of(self@, key@),
    {
        if !self.might_contain(key) {
            return LookupPlan::Absent;
        }
        match self.block_offset_for_key(key) {
            None => LookupPlan::Absent,
            Some(offset) => match self.block_byte_range(offset) {
                None => LookupPlan::Invalid { offset },
                Some((start, end)) => if start <= end {
                    LookupPlan::Block { start, end }
                } else {
                    LookupPlan::Invalid { offset }
                },
            },
        }
    }

    /// Number of keys.
    pub fn key_count(&self) -> (n: u32)
        ensures
            n == self@.footer.key_count,
    {
        self.footer.key_count
    }

    /// Size in bytes of filter, directory and footer.
    pub fn metadata_size(&self) -> (n: usize)
        requires
            self@.filter.len() + self@.directory.len() + FOOTER_SIZE <= usize::MAX,
        ensures
            n as nat == self@.filter.len() + self@.directory.len() + FOOTER_SIZE,
            n as nat == self@.filter.len() + self@.directory.len() + 64,
    {
        self.bloom_bytes.len() + self.fst.size() + FOOTER_SIZE
    }
}

/// Where the block at an offset ends.
fn find_block_end(slots: &Vec<(Vec<u8>, u64)>, block_offset: u64, data_end: u64) -> (end: u64)
    ensures
        end == block_end(slots_view(slots@), block_offset, data_end),
{
    let ghost all = slots_view(slots@);
    let mut i: usize = 0;
    assert(all.skip(0) =~= all);
    while i < slots.len()
        invariant
            i <= slots@.len(),
            all == slots_view(slots@),
            block_end(all, block_offset, data_end) == block_end(
                all.skip(i as int),
                block_offset,
                data_end,
            ),
        decreases slots@.len() - i,
    {
        let ghost rest = all.skip(i as int);
        assert(rest[0] == (slots@[i as int].0@, slots@[i as int].1));
        if slots[i].1 == block_offset {
            if i + 1 < slots.len() {
                assert(rest[1] == (slots@[i + 1].0@, slots@[i + 1].1));
                return slots[i + 1].1;
            }
            return data_end;
        }
        assert(rest.drop_first() =~= all.skip(i + 1));
        i += 1;
    }
    data_end
}

// ---------------------------------------------------------------------------
// Lookups in stored data
// ---------------------------------------------------------------------------

/// How many bytes to read from the end of a stored segment of `segment_size` bytes.
pub fn tail_read_size(tail_budget: Option<u64>, segment_size: u64) -> (n: u64)
    ensures
        n <= segment_size,
        n == segment_size || n == match tail_budget {
            Some(budget) => budget,
            None => DEFAULT_TAIL_READ_BUDGET,
        },
        n <= match tail_budget {
            Some(budget) => budget,
            None => DEFAULT_TAIL_READ_BUDGET,
        },
        tail_budget is None ==> n == if segment_size < 262144 {
            segment_size
        } else {
            262144
        },
{
    let budget: u64 = match tail_budget {
        Some(budget) => budget,
        None => DEFAULT_TAIL_READ_BUDGET,
    };
    if budget < segment_size {
        budget
    } else {
        segment_size
    }
}

/// Looks a key up in the bytes of one block.
pub fn search_block(block: &[u8], key: &[u8]) -> (r: Result<Option<Vec<u8>>, ReaderError>)
    ensures
        found(r) == block_lookup(block@, key@),
{
    let reader = match BlockReader::open(block) {
        Ok(reader) => reader,
        Err(e) => {
            return Err(ReaderError::Block(e));
        },
    };
    match reader.get(key) {
        Ok(Some(value)) => Ok(Some(slice_to_vec(value))),
        Ok(None) => Ok(None),
        Err(e) => Err(ReaderError::Block(e)),
    }
}

// ---------------------------------------------------------------------------
// SegmentReader
// ---------------------------------------------------------------------------

/// Reads a segment that is in memory as a whole.
#[derive(Debug)]
pub struct SegmentReader {
    /// The whole segment.
    data: Vec<u8>,
    /// Footer, directory and filter.
    meta: SegmentMetadata,
}

impl View for SegmentReader {
    type V = SegmentView;

    closed spec fn view(&self) -> SegmentView {
        SegmentView { data: self.data@, meta: self.meta@ }
    }
}

impl SegmentReader {
    /// Opens a segment. A directory that no builder made, but whose bytes are accepted all the
    /// same, must not be given.
    pub fn open(data: Vec<u8>) -> (r: Result<Self, ReaderError>)
        requires
            segment_genuine(data@),
        ensures
            outcome(r) == open_segment(data@),
    {
        proof {
            reveal(open_segment);
            reveal(segment_genuine);
        }
        let footer = match read_footer(data.as_slice()) {
            Ok(footer) => footer,
            Err(e) => {
                return Err(e);
            },
        };
        match check_sections(&footer, data.len() as u64) {
            Ok(_) => {},
            Err(e) => {
                return Err(e);
            },
        }
        match read_metadata(data.as_slice(), 0, footer) {
            Ok(meta) => Ok(SegmentReader { data, meta }),
            Err(e) => Err(e),
        }
    }

    /// Opens the metadata of a segment of `segment_size` bytes from its last bytes. These must
    /// reach back to the filter. A directory that no builder made, but whose bytes are accepted all
    /// the same, must not be given.
    pub fn open_from_tail(tail: &[u8], segment_size: u64) -> (r: Result<
        SegmentMetadata,
        ReaderError,
    >)
        requires
            tail@.len() <= segment_size,
            tail_genuine(tail@, segment_size),
        ensures
            outcome(r) == open_tail(tail@, segment_size),
    {
        proof {
            reveal(tail_genuine);
        }
        let footer = match read_footer(tail) {
            Ok(footer) => footer,
            Err(e) => {
                return Err(e);
            },
        };
        let base: u64 = segment_size - tail.len() as u64;
        if footer.bloom_offset < base {
            return Err(
                ReaderError::TailTooSmall {
                    needed: (segment_size - footer.bloom_offset) as usize,
                    got: tail.len(),
                },
            );
        }
        match check_sections(&footer, segment_size) {
            Ok(_) => {},
            Err(e) => {
                return Err(e);
            },
        }
        if footer.fst_offset < base {
            return Err(
                ReaderError::TailTooSmall {
                    needed: (segment_size - footer.fst_offset) as usize,
                    got: tail.len(),
                },
            );
        }
        read_metadata(tail, base, footer)
    }

    /// Looks a key up. Returns its value, or none if the segment does not hold the key.
    pub fn get(&self, key: &[u8]) -> (r: Result<Option<Vec<u8>>, ReaderError>)
        ensures
            found(r) == segment_get(self@, key@),
    {
        proof {
            reveal(segment_get);
        }
        if !self.meta.might_contain(key) {
            return Ok(None);
        }
        let offset: u64 = match self.meta.block_offset_for_key(key) {
            Some(offset) => offset,
            None => {
                return Ok(None);
            },
        };
        match self.read_block(offset) {
            Ok(block) => search_block(block, key),
            Err(e) => Err(e),
        }
    }

    /// Whether the filter admits a key. Keys of the segment are always admitted.
    pub fn might_contain(&self, key: &[u8]) -> (r: bool)
        ensures
            r == filter_admits(self@.meta.filter, key@),
    {
        self.meta.might_contain(key)
    }

    /// Number of keys, as the footer has it.
    pub fn key_count(&self) -> (n: u32)
        ensures
            n == self@.meta.footer.key_count,
    {
        self.meta.key_count()
    }

    /// Size of the segment in bytes.
    pub fn size_bytes(&self) -> (n: u64)
        ensures
            n as nat == self@.data.len(),
    {
        self.data.len() as u64
    }

    /// All entries in ascending order of their keys.
    pub fn iter(&self) -> (r: Result<Vec<(Vec<u8>, Vec<u8>)>, ReaderError>)
        ensures
            match r {
                Ok(entries) => segment_entries(self@) == Ok::<Seq<Pair>, Fault>(
                    pairs_view(entries@),
                ),
                Err(e) => segment_entries(self@) == Err::<Seq<Pair>, Fault>(e@),
            },
    {
        proof {
            reveal(segment_entries);
        }
        let slots = self.meta.fst.entries();
        let ghost all = slots_view(slots@);
        let mut out: Vec<(Vec<u8>, Vec<u8>)> = Vec::new();
        let mut i: usize = 0;
        assert(all.take(0) =~= Seq::empty());
        assert(pairs_view(out@) =~= Seq::<Pair>::empty());
        while i < slots.len()
            invariant
                i <= slots@.len(),
                all == slots_view(slots@),
                all == fst_entries(self@.meta.directory),
                segment_entries(self@) == entries_in(self@, all),
                entries_in(self@, all.take(i as int)) == Ok::<Seq<Pair>, Fault>(pairs_view(out@)),
            decreases slots@.len() - i,
        {
            assert(all.take(i + 1).drop_last() =~= all.take(i as int));
            assert(all.take(i + 1).last() == (slots@[i as int].0@, slots@[i as int].1));
            let block = match self.read_block(slots[i].1) {
                Ok(block) => block,
                Err(e) => {
                    proof {
                        lemma_fault_stays(self@, all, i + 1);
                    }
                    return Err(e);
                },
            };
            match collect_block(block, &mut out) {
                Ok(_) => {},
                Err(e) => {
                    proof {
                        lemma_fault_stays(self@, all, i + 1);
                    }
                    return Err(e);
                },
            }
            i += 1;
        }
        assert(all.take(i as int) =~= all);
        Ok(out)
    }

    /// The block at an offset.
    fn read_block(&self, offset: u64) -> (r: Result<&[u8], ReaderError>)
        ensures
            match r {
                Ok(block) => block_at(self@, offset) == Ok::<Seq<u8>, Fault>(block@),
                Err(e) => block_at(self@, offset) == Err::<Seq<u8>, Fault>(e@),
            },
    {
        match self.meta.block_byte_range(offset) {
            Some((start, end)) => {
                if start <= end && end <= self.data.len() as u64 {
                    Ok(slice_subrange(self.data.as_slice(), start as usize, end as usize))
                } else {
                    Err(ReaderError::InvalidBlockOffset(offset))
                }
            },
            None => Err(ReaderError::InvalidBlockOffset(offset)),
        }
    }
}

/// A segment that was just written, in memory as a whole, with readers of it.
#[derive(Debug)]
pub struct FinishedSegment {
    /// What the writer gave.
    pub output: SegmentOutput,
    /// A reader of the whole segment.
    pub reader: SegmentReader,
    /// The metadata, read from the end of the segment.
    pub metadata: SegmentMetadata,
}

/// Finishes a writer and opens what it wrote, as a whole and by its end. At least one entry must
/// have been added.
pub fn finish_and_open(writer: SegmentWriter) -> (r: Result<FinishedSegment, WriterError>)
    requires
        writer.wf(),
    ensures
        match r {
            Ok(s) => {
                let entries = writer.entries();
                let meta = metadata_of(entries, writer.options());
                &&& entries.len() > 0
                &&& segment_written(s.output.data@, entries, writer.options())
                &&& s.output.meta.key_count == entries.len()
                &&& s.output.meta.size_bytes == s.output.data@.len()
                &&& s.output.meta.min_key@ == entries[0].0
                &&& s.output.meta.max_key@ == entries.last().0
                &&& s.output.meta.generation == 0
                &&& s.output.meta.path@ == Seq::<char>::empty()
                &&& s.reader@ == (SegmentView { data: s.output.data@, meta })
                &&& s.metadata@ == meta
            },
            Err(e) => writer.entries().len() == 0 && e is EmptySegment,
        },
{
    let ghost entries = writer.entries();
    let ghost opts = writer.options();
    let output = match writer.finish() {
        Ok(output) => output,
        Err(e) => {
            return Err(e);
        },
    };
    let size: u64 = output.data.len() as u64;
    assert(size == output.data@.len());
    proof {
        lemma_written_footer(output.data@, entries, opts);
        law_genuine_tail(output.data@, 0);
        law_tail_of_written(output.data@, entries, opts, output.data@.len());
        assert(output.data@.skip(0) =~= output.data@);
    }
    let copy = slice_to_vec(output.data.as_slice());
    let reader = SegmentReader::open(copy);
    let metadata = SegmentReader::open_from_tail(output.data.as_slice(), size);
    match (reader, metadata) {
        (Ok(reader), Ok(metadata)) => Ok(FinishedSegment { output, reader, metadata }),
        _ => {
            assert(false);
            Err(WriterError::EmptySegment)
        },
    }
}

/// A fault among the first `n` slots is the fault of all.
proof fn lemma_fault_stays(s: SegmentView, slots: Seq<crate::directory::Slot>, n: int)
    requires
        0 <= n <= slots.len(),
        entries_in(s, slots.take(n)) is Err,
    ensures
        entries_in(s, slots) == entries_in(s, slots.take(n)),
    decreases slots.len() - n,
{
    if n == slots.len() {
        assert(slots.take(n) =~= slots);
    } else {
        assert(slots.take(n + 1).drop_last() =~= slots.take(n));
        lemma_fault_stays(s, slots, n + 1);
    }
}

/// Appends the entries of one block.
fn collect_block(block: &[u8], out: &mut Vec<(Vec<u8>, Vec<u8>)>) -> (r: Result<(), ReaderError>)
    ensures
        match open_block(block@) {
            Err(f) => r matches Err(e) && e@ == Fault::Block(f),
            Ok(b) => match block_entries(b) {
                Err(f) => r matches Err(e) && e@ == Fault::Block(f),
                Ok(entries) => r is Ok && pairs_view(final(out)@) == pairs_view(old(out)@)
                    + entries,
            },
        },
{
    let reader = match BlockReader::open(block) {
        Ok(reader) => reader,
        Err(e) => {
            return Err(ReaderError::Block(e));
        },
    };
    let mut it = reader.iter();
    let ghost before = pairs_view(out@);
    let ghost mut done = Seq::<Pair>::empty();
    loop
        invariant
            it.wf(),
            pairs_view(out@) == before + done,
            match it.rest() {
                Ok(rest) => block_entries(reader@) == Ok::<Seq<Pair>, BlockError>(done + rest),
                Err(e) => block_entries(reader@) == Err::<Seq<Pair>, BlockError>(e),
            },
            before == pairs_view(old(out)@),
            open_block(block@) == Ok::<crate::block_model::BlockView, BlockError>(reader@),
        decreases it.entries_end() - it.pos(),
    {
        match it.next() {
            None => {
                assert(done + Seq::<Pair>::empty() =~= done);
                return Ok(());
            },
            Some(Err(e)) => {
                return Err(ReaderError::Block(e));
            },
            Some(Ok((key, value))) => {
                let ghost e = (key@, value@);
                let ghost prev = out@;
                out.push((key, slice_to_vec(value)));
                proof {
                    assert(pairs_view(out@) =~= pairs_view(prev).push(e));
                    assert(pairs_view(out@) =~= before + done.push(e));
                    if let Ok(rest) = it.rest() {
                        assert(done + (seq![e] + rest) =~= done.push(e) + rest);
                    }
                    done = done.push(e);
                }
            },
        }
    }
}

} // verus!
