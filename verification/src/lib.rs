//! Immutable key-value index segments for object storage.
//!
//! A segment maps byte-string keys to byte-string values. It is one contiguous
//! run of bytes: prefix-compressed data blocks, a membership filter, a
//! directory of block offsets and a fixed-size footer.

pub mod block;
pub mod block_model;
pub mod block_proof;
pub mod bloom;
pub mod bytes;
pub mod checksum;
pub mod directory;
pub mod format;
pub mod layered;
pub mod numerals;
pub mod order;
pub mod partitioned;
pub mod reader;
pub mod secondary;
pub mod segment_laws;
pub mod segment_model;
pub mod segment_proof;
pub mod sorted_map;
pub mod stats;
pub mod storage;
pub mod text;
pub mod values;
pub mod varint;
pub mod writer;

pub use format::{Footer, SegmentMeta, FORMAT_VERSION, MAGIC};
pub use layered::{
    is_tombstone, merge_segments, tombstone_value, LayeredIndexManifest, LayeredReader, SegmentRef,
    MAX_DELTA_COUNT, TOMBSTONE_MARKER,
};
pub use reader::{ReaderError, SegmentMetadata, SegmentReader};
pub use stats::{
    ColumnStats, RangePredicate, RowGroupRef, RowGroupStats, StatsManifest, StatsManifestBuilder,
};
pub use storage::StorageError;
pub use writer::{SegmentOutput, SegmentWriter, SegmentWriterOptions};
