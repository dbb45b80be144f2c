//! Partitioned index: the key space cut into ranges, one segment for each.

use vstd::prelude::*;
use vstd::utf8::{decode_utf8, encode_utf8, valid_utf8};
use crate::order::{
    ascending, compare_bytes, law_ascending, lemma_lex_asymmetric, lemma_lex_irreflexive,
    lemma_lex_total, lemma_lex_transitive, lex_less, KeyOrder, Pair,
};
use crate::segment_model::segment_written;
use crate::text::{lossy_text, text_bytes, utf8_lossy};
use crate::writer::{SegmentWriter, SegmentWriterOptions, WriterError};

verus! {

/// Routes keys to segments by range.
#[derive(Debug, Clone)]
pub struct PartitionManifest {
    /// Version of the manifest's format.
    pub version: u32,
    /// Number of keys in all partitions.
    pub total_keys: u64,
    /// Number of partitions.
    pub partition_count: u32,
    /// The partitions in order. Keys after the `max_key` of one belong to the next.
    pub partitions: Vec<PartitionEntry>,
}

/// A partition in a manifest.
#[derive(Debug, Clone)]
pub struct PartitionEntry {
    /// The largest key of the partition.
    pub max_key: String,
    /// Where the partition's segment is stored.
    pub segment_path: String,
    /// Number of keys.
    pub key_count: u32,
    /// Size of the segment in bytes.
    pub size_bytes: u64,
}

/// Keys to put into one partition, as a rule.
pub const DEFAULT_KEYS_PER_PARTITION: usize = 1_000_000;

/// The upper bounds of partitions, as bytes.
pub open spec fn bounds_of(partitions: Seq<PartitionEntry>) -> Seq<Seq<u8>> {
    partitions.map_values(|p: PartitionEntry| encode_utf8(p.max_key@))
}

/// The bounds do not descend.
pub open spec fn bounds_sorted(bounds: Seq<Seq<u8>>) -> bool {
    forall|i: int, j: int|
        0 <= i < j < bounds.len() ==> !lex_less(#[trigger] bounds[j], #[trigger] bounds[i])
}

/// `i` is the first of the bounds that is not before `key`.
pub open spec fn routes_to(bounds: Seq<Seq<u8>>, key: Seq<u8>, i: int) -> bool {
    &&& 0 <= i < bounds.len()
    &&& !lex_less(bounds[i], key)
    &&& forall|j: int| 0 <= j < i ==> lex_less(#[trigger] bounds[j], key)
}

/// A key is routed to at most one partition, and later keys to no earlier one.
pub proof fn law_routing(bounds: Seq<Seq<u8>>, key: Seq<u8>, later: Seq<u8>, i: int, j: int)
    requires
        routes_to(bounds, key, i),
        routes_to(bounds, later, j),
        key == later || lex_less(key, later),
    ensures
        i <= j,
        key == later ==> i == j,
{
    if j < i {
        assert(lex_less(bounds[j], key));
        if key != later {
            lemma_lex_transitive(bounds[j], key, later);
        }
    }
    if i < j {
        assert(lex_less(bounds[i], later));
    }
}

/// A key is routed to a partition exactly if it is the partition's bound or comes before it, and
/// comes after the bound of the partition before: whole byte strings are compared.
pub proof fn law_routes_to(bounds: Seq<Seq<u8>>, key: Seq<u8>, i: int)
    requires
        forall|a: int, b: int|
            0 <= a < b < bounds.len() ==> bounds[a] == bounds[b] || lex_less(
                #[trigger] bounds[a],
                #[trigger] bounds[b],
            ),
    ensures
        routes_to(bounds, key, i) <==> 0 <= i < bounds.len() && (key == bounds[i] || lex_less(
            key,
            bounds[i],
        )) && (i == 0 || lex_less(bounds[i - 1], key)),
{
    if 0 <= i < bounds.len() {
        lemma_lex_total(bounds[i], key);
        lemma_lex_irreflexive(key);
        if lex_less(key, bounds[i]) {
            lemma_lex_asymmetric(key, bounds[i]);
        }
        if i > 0 && lex_less(bounds[i - 1], key) {
            assert forall|j: int| 0 <= j < i implies lex_less(#[trigger] bounds[j], key) by {
                if j < i - 1 && bounds[j] != bounds[i - 1] {
                    assert(lex_less(bounds[j], bounds[i - 1]));
                    lemma_lex_transitive(bounds[j], bounds[i - 1], key);
                }
            }
        }
    }
}

/// Bounds are in order exactly if each is the one before it or comes after it.
pub proof fn law_bounds_sorted(bounds: Seq<Seq<u8>>)
    ensures
        bounds_sorted(bounds) <==> forall|i: int|
            0 < i < bounds.len() ==> bounds[i - 1] == bounds[i] || lex_less(
                bounds[i - 1],
                #[trigger] bounds[i],
            ),
{
    if bounds_sorted(bounds) {
        assert forall|i: int| 0 < i < bounds.len() implies bounds[i - 1] == bounds[i] || lex_less(
            bounds[i - 1],
            #[trigger] bounds[i],
        ) by {
            assert(!lex_less(bounds[i], bounds[i - 1]));
            lemma_lex_total(bounds[i - 1], bounds[i]);
        }
    }
    if forall|i: int|
        0 < i < bounds.len() ==> bounds[i - 1] == bounds[i] || lex_less(
            bounds[i - 1],
            #[trigger] bounds[i],
        ) {
        assert forall|i: int, j: int| 0 <= i < j < bounds.len() implies !lex_less(
            #[trigger] bounds[j],
            #[trigger] bounds[i],
        ) by {
            lemma_bounds_ascend(bounds, i, j);
            lemma_lex_irreflexive(bounds[i]);
            if lex_less(bounds[i], bounds[j]) {
                lemma_lex_asymmetric(bounds[i], bounds[j]);
            }
        }
    }
}

proof fn lemma_bounds_ascend(bounds: Seq<Seq<u8>>, i: int, j: int)
    requires
        0 <= i < j < bounds.len(),
        forall|k: int|
            0 < k < bounds.len() ==> bounds[k - 1] == bounds[k] || lex_less(
                bounds[k - 1],
                #[trigger] bounds[k],
            ),
    ensures
        bounds[i] == bounds[j] || lex_less(bounds[i], bounds[j]),
    decreases j - i,
{
    if i < j - 1 {
        lemma_bounds_ascend(bounds, i, j - 1);
        assert(bounds[j - 1] == bounds[j] || lex_less(bounds[j - 1], bounds[j]));
        if bounds[i] != bounds[j - 1] && bounds[j - 1] != bounds[j] {
            lemma_lex_transitive(bounds[i], bounds[j - 1], bounds[j]);
        }
    }
}

/// The bounds of partitions are their largest keys, in order, as bytes.
pub proof fn law_bounds_of(partitions: Seq<PartitionEntry>)
    ensures
        bounds_of(partitions).len() == partitions.len(),
        forall|i: int|
            0 <= i < partitions.len() ==> #[trigger] bounds_of(partitions)[i] == encode_utf8(
                partitions[i].max_key@,
            ),
{
}

/// If sorted entries are cut into parts, and the last key of each part is the bound of a partition,
/// then every key is routed to the partition of its own part.
pub proof fn law_keys_find_their_partition(parts: Seq<Seq<Pair>>, i: int, k: int)
    requires
        forall|a: int| 0 <= a < parts.len() ==> (#[trigger] parts[a]).len() > 0,
        forall|a: int| 0 <= a < parts.len() ==> ascending(#[trigger] parts[a]),
        forall|a: int, x: int, b: int, y: int|
            0 <= a < b < parts.len() && 0 <= x < parts[a].len() && 0 <= y < parts[b].len()
                ==> lex_less((#[trigger] parts[a][x]).0, (#[trigger] parts[b][y]).0),
        0 <= i < parts.len(),
        0 <= k < parts[i].len(),
    ensures
        routes_to(
            Seq::new(parts.len(), |a: int| parts[a].last().0),
            parts[i][k].0,
            i,
        ),
{
    let bounds = Seq::new(parts.len(), |a: int| parts[a].last().0);
    let key = parts[i][k].0;
    assert forall|j: int| 0 <= j < i implies lex_less(#[trigger] bounds[j], key) by {
        let last = parts[j].len() - 1;
        assert(parts[j].len() > 0);
        assert(lex_less(parts[j][last].0, parts[i][k].0));
    }
    assert(ascending(parts[i]));
    let last = parts[i].len() - 1;
    if k < last {
        assert(lex_less(parts[i][k].0, parts[i][last].0));
        lemma_lex_asymmetric(key, bounds[i]);
    } else {
        lemma_lex_irreflexive(key);
    }
}

/// Sizes add up partition by partition.
pub proof fn law_sum_partition_sizes(partitions: Seq<PartitionEntry>, more: Seq<PartitionEntry>)
    ensures
        sum_partition_sizes(Seq::empty()) == 0,
        partitions.len() == 1 ==> sum_partition_sizes(partitions) == partitions[0].size_bytes,
        sum_partition_sizes(partitions + more) == sum_partition_sizes(partitions)
            + sum_partition_sizes(more),
    decreases more.len(),
{
    if partitions.len() == 1 {
        assert(partitions.drop_last() =~= Seq::empty());
        assert(sum_partition_sizes(partitions.drop_last()) == 0);
    }
    if more.len() == 0 {
        assert(partitions + more =~= partitions);
    } else {
        assert((partitions + more).drop_last() =~= partitions + more.drop_last());
        law_sum_partition_sizes(partitions, more.drop_last());
    }
}

/// The sum of the sizes of partitions.
pub open spec fn sum_partition_sizes(partitions: Seq<PartitionEntry>) -> nat
    decreases partitions.len(),
{
    if partitions.len() == 0 {
        0
    } else {
        sum_partition_sizes(partitions.drop_last()) + partitions.last().size_bytes as nat
    }
}

proof fn lemma_sum_partition_sizes_grows(partitions: Seq<PartitionEntry>, i: int)
    requires
        0 <= i <= partitions.len(),
    ensures
        sum_partition_sizes(partitions.take(i)) <= sum_partition_sizes(partitions),
    decreases partitions.len(),
{
    if i == partitions.len() {
        assert(partitions.take(i) =~= partitions);
    } else {
        lemma_sum_partition_sizes_grows(partitions.drop_last(), i);
        assert(partitions.drop_last().take(i) =~= partitions.take(i));
    }
}

impl PartitionManifest {
    /// The place of the partition that a key belongs to: the first whose `max_key` is not before
    /// the key. `None` if the key comes after all. The partitions must be in order for this.
    pub fn find_partition(&self, key: &[u8]) -> (r: Option<usize>)
        ensures
            bounds_sorted(bounds_of(self.partitions@)) ==> match r {
                Some(i) => routes_to(bounds_of(self.partitions@), key@, i as int),
                None => forall|j: int|
                    0 <= j < self.partitions@.len() ==> lex_less(
                        #[trigger] bounds_of(self.partitions@)[j],
                        key@,
                    ),
            },
            r matches Some(i) ==> i < self.partitions@.len(),
            (forall|a: int, b: int|
                0 <= a < b < self.partitions@.len() ==> !lex_less(
                    encode_utf8((#[trigger] self.partitions@[b]).max_key@),
                    encode_utf8((#[trigger] self.partitions@[a]).max_key@),
                )) ==> match r {
                Some(i) => {
                    &&& !lex_less(encode_utf8(self.partitions@[i as int].max_key@), key@)
                    &&& i > 0 ==> lex_less(
                        encode_utf8(self.partitions@[i - 1].max_key@),
                        key@,
                    )
                },
                None => self.partitions@.len() > 0 ==> lex_less(
                    encode_utf8(self.partitions@.last().max_key@),
                    key@,
                ),
            },
    {
        let ghost bounds = bounds_of(self.partitions@);
        let n: usize = self.partitions.len();
        let mut lo: usize = 0;
        let mut hi: usize = n;
        while lo < hi
            invariant
                lo <= hi <= n == self.partitions@.len(),
                bounds == bounds_of(self.partitions@),
                bounds_sorted(bounds) ==> forall|j: int|
                    0 <= j < lo ==> lex_less(#[trigger] bounds[j], key@),
                bounds_sorted(bounds) && hi < n ==> !lex_less(bounds[hi as int], key@),
            decreases hi - lo,
        {
            let mid: usize = lo + (hi - lo) / 2;
            let bound = text_bytes(self.partitions[mid].max_key.as_str());
            assert(bound@ == bounds[mid as int]);
            match compare_bytes(bound, key) {
                KeyOrder::Less => {
                    proof {
                        if bounds_sorted(bounds) {
                            assert forall|j: int| 0 <= j < mid + 1 implies lex_less(
                                #[trigger] bounds[j],
                                key@,
                            ) by {
                                if j < mid {
                                    assert(!lex_less(bounds[mid as int], bounds[j]));
                                    crate::order::lemma_lex_not_after_then_before(
                                        bounds[j],
                                        bounds[mid as int],
                                        key@,
                                    );
                                }
                            }
                        }
                    }
                    lo = mid + 1;
                },
                KeyOrder::Equal => {
                    proof {
                        lemma_lex_irreflexive(key@);
                    }
                    hi = mid;
                },
                KeyOrder::Greater => {
                    proof {
                        lemma_lex_asymmetric(key@, bound@);
                    }
                    hi = mid;
                },
            }
        }
        proof {
            if forall|a: int, b: int|
                0 <= a < b < self.partitions@.len() ==> !lex_less(
                    encode_utf8((#[trigger] self.partitions@[b]).max_key@),
                    encode_utf8((#[trigger] self.partitions@[a]).max_key@),
                ) {
                assert forall|a: int, b: int| 0 <= a < b < bounds.len() implies !lex_less(
                    #[trigger] bounds[b],
                    #[trigger] bounds[a],
                ) by {
                    assert(self.partitions@[a] == self.partitions@[a] && self.partitions@[b]
                        == self.partitions@[b]);
                }
                assert(bounds_sorted(bounds));
                if lo > 0 {
                    assert(lex_less(bounds[lo - 1], key@));
                }
            }
        }
        if lo < n {
            Some(lo)
        } else {
            None
        }
    }

    /// Size of all segments in bytes.
    pub fn total_size_bytes(&self) -> (n: u64)
        requires
            sum_partition_sizes(self.partitions@) <= u64::MAX,
        ensures
            n as nat == sum_partition_sizes(self.partitions@),
    {
        let mut sum: u64 = 0;
        let mut i: usize = 0;
        assert(self.partitions@.take(0) =~= Seq::empty());
        while i < self.partitions.len()
            invariant
                i <= self.partitions@.len(),
                sum as nat == sum_partition_sizes(self.partitions@.take(i as int)),
                sum_partition_sizes(self.partitions@) <= u64::MAX,
            decreases self.partitions@.len() - i,
        {
            proof {
                assert(self.partitions@.take(i + 1).drop_last() =~= self.partitions@.take(
                    i as int,
                ));
                lemma_sum_partition_sizes_grows(self.partitions@, i + 1);
            }
            sum = sum + self.partitions[i].size_bytes;
            i += 1;
        }
        assert(self.partitions@.take(i as int) =~= self.partitions@);
        sum
    }

    /// Keys per partition on average, rounded down; 0 if there are no partitions.
    pub fn avg_keys_per_partition(&self) -> (n: u64)
        ensures
            n == if self.partition_count == 0 {
                0
            } else {
                self.total_keys / (self.partition_count as u64)
            },
    {
        if self.partition_count == 0 {
            0
        } else {
            self.total_keys / self.partition_count as u64
        }
    }
}

/// The number of partitions that `total_keys` keys take: the least number, but at least one, of
/// partitions of `keys_per_partition` keys that holds them all.
pub fn compute_partition_boundaries(total_keys: usize, keys_per_partition: usize) -> (n: usize)
    requires
        keys_per_partition > 0,
    ensures
        n >= 1,
        n * keys_per_partition >= total_keys,
        n > 1 ==> (n - 1) * keys_per_partition < total_keys,
{
    let q: usize = total_keys / keys_per_partition;
    let r: usize = total_keys % keys_per_partition;
    proof {
        vstd::arithmetic::div_mod::lemma_fundamental_div_mod(
            total_keys as int,
            keys_per_partition as int,
        );
    }
    assert(total_keys == q * keys_per_partition + r) by (nonlinear_arith)
        requires
            total_keys as int == keys_per_partition as int * q as int + r as int,
    ;
    if r == 0 {
        if q == 0 {
            assert(1 * keys_per_partition >= total_keys) by (nonlinear_arith)
                requires
                    total_keys == q * keys_per_partition + r,
                    q == 0,
                    r == 0,
            ;
            1
        } else {
            assert((q - 1) * keys_per_partition < q * keys_per_partition) by (nonlinear_arith)
                requires
                    keys_per_partition > 0,
            ;
            q
        }
    } else {
        assert(q + 1 <= total_keys && (q + 1) * keys_per_partition >= total_keys)
            by (nonlinear_arith)
            requires
                total_keys == q * keys_per_partition + r,
                0 < r < keys_per_partition,
        ;
        q + 1
    }
}

// ---------------------------------------------------------------------------
// Building
// ---------------------------------------------------------------------------

/// A partition that was built.
#[derive(Debug)]
pub struct BuiltPartition {
    /// The segment.
    pub data: Vec<u8>,
    /// The largest key, as text.
    pub max_key: String,
    /// Number of keys.
    pub key_count: u32,
}

/// The entries of a slice.
pub open spec fn slice_pairs(entries: Seq<(&[u8], &[u8])>) -> Seq<Pair> {
    entries.map_values(|e: (&[u8], &[u8])| (e.0@, e.1@))
}

/// What is wrong with the first entry whose key does not come after the one before it.
pub open spec fn first_disorder(entries: Seq<Pair>) -> Option<WriterError>
    decreases entries.len(),
{
    if entries.len() < 2 {
        None
    } else if first_disorder(entries.drop_last()) is Some {
        first_disorder(entries.drop_last())
    } else {
        let key = entries.last().0;
        let before = entries[entries.len() - 2].0;
        if lex_less(before, key) {
            None
        } else if key == before {
            Some(WriterError::DuplicateKey)
        } else {
            Some(WriterError::KeysOutOfOrder)
        }
    }
}

/// Disorder among the first entries is the disorder of all.
proof fn lemma_disorder_stays(entries: Seq<Pair>, i: int)
    requires
        0 <= i <= entries.len(),
        first_disorder(entries.take(i)) is Some,
    ensures
        first_disorder(entries) == first_disorder(entries.take(i)),
    decreases entries.len(),
{
    if i == entries.len() {
        assert(entries.take(i) =~= entries);
    } else {
        assert(entries.drop_last().take(i) =~= entries.take(i));
        lemma_disorder_stays(entries.drop_last(), i);
    }
}

/// Entries without disorder ascend, and only those.
pub proof fn lemma_disorder_means_unsorted(entries: Seq<Pair>)
    ensures
        first_disorder(entries) is None <==> ascending(entries),
    decreases entries.len(),
{
    if entries.len() >= 2 {
        let fewer = entries.drop_last();
        let e = entries.last();
        lemma_disorder_means_unsorted(fewer);
        assert(fewer.push(e) =~= entries);
        assert(fewer.last() == entries[entries.len() - 2]);
        if first_disorder(entries) is None {
            crate::segment_proof::lemma_push_entry(fewer, e, 1, 1);
        }
        if ascending(entries) {
            assert forall|i: int, j: int| 0 <= i < j < fewer.len() implies lex_less(
                #[trigger] fewer[i].0,
                #[trigger] fewer[j].0,
            ) by {
                assert(fewer[i] == entries[i] && fewer[j] == entries[j]);
            }
            assert(lex_less(entries[entries.len() - 2].0, entries[entries.len() - 1].0));
        }
    }
}

/// The error of entries out of order is that of the first key that does not come after the one
/// before it: the same key twice, or a key that comes before.
pub proof fn law_first_disorder(entries: Seq<Pair>, i: int)
    requires
        0 < i < entries.len(),
        forall|j: int| 0 < j < i ==> lex_less(entries[j - 1].0, (#[trigger] entries[j]).0),
        !lex_less(entries[i - 1].0, entries[i].0),
    ensures
        first_disorder(entries) == Some(
            if entries[i].0 == entries[i - 1].0 {
                WriterError::DuplicateKey
            } else {
                WriterError::KeysOutOfOrder
            },
        ),
{
    let fewer = entries.take(i);
    assert forall|j: int| 0 < j < fewer.len() implies lex_less(
        fewer[j - 1].0,
        (#[trigger] fewer[j]).0,
    ) by {
        assert(fewer[j] == entries[j] && fewer[j - 1] == entries[j - 1]);
    }
    law_ascending(fewer);
    lemma_disorder_means_unsorted(fewer);
    assert(entries.take(i + 1).drop_last() =~= fewer);
    lemma_disorder_stays(entries, i + 1);
}

/// The entries of a slice are those that it holds, in order.
pub proof fn law_slice_pairs(entries: Seq<(&[u8], &[u8])>)
    ensures
        slice_pairs(entries).len() == entries.len(),
        forall|i: int|
            0 <= i < entries.len() ==> #[trigger] slice_pairs(entries)[i] == (
                entries[i].0@,
                entries[i].1@,
            ),
{
}

/// A partition has blocks of the size asked for, a restart point every 16 entries and a filter.
pub proof fn law_partition_options(block_size: u32)
    ensures
        partition_options(block_size).block_size == block_size,
        partition_options(block_size).restart_interval == 16,
        partition_options(block_size).enable_bloom,
{
}

/// The options that partitions are built with.
pub open spec fn partition_options(block_size: u32) -> SegmentWriterOptions {
    SegmentWriterOptions { block_size, restart_interval: 16, enable_bloom: true }
}

/// Builds one partition from entries in strictly ascending order of their keys.
pub fn build_partition(keys_and_values: &[(&[u8], &[u8])], block_size: u32) -> (r: Result<
    BuiltPartition,
    WriterError,
>)
    requires
        keys_and_values@.len() <= u32::MAX,
    ensures
        match r {
            Ok(p) => {
                let entries = slice_pairs(keys_and_values@);
                &&& entries.len() > 0
                &&& ascending(entries)
                &&& segment_written(p.data@, entries, partition_options(block_size))
                &&& p.max_key@ == utf8_lossy(entries.last().0)
                &&& valid_utf8(entries.last().0) ==> p.max_key@ == decode_utf8(entries.last().0)
                &&& p.key_count == entries.len()
            },
            Err(e) => if keys_and_values@.len() == 0 {
                e == WriterError::EmptySegment
            } else {
                first_disorder(slice_pairs(keys_and_values@)) == Some(e)
            },
        },
{
    let ghost all = slice_pairs(keys_and_values@);
    let mut writer = SegmentWriter::new(
        SegmentWriterOptions { block_size, restart_interval: 16, enable_bloom: true },
    );
    let n: usize = keys_and_values.len();
    let mut i: usize = 0;
    assert(all.take(0) =~= Seq::empty());
    while i < n
        invariant
            i <= n == keys_and_values@.len(),
            n <= u32::MAX,
            all == slice_pairs(keys_and_values@),
            writer.wf(),
            writer.options() == partition_options(block_size),
            writer.entries() == all.take(i as int),
            first_disorder(all.take(i as int)) is None,
        decreases n - i,
    {
        let (key, value) = keys_and_values[i];
        proof {
            assert(all[i as int] == (key@, value@));
            assert(all.take(i + 1) =~= all.take(i as int).push((key@, value@)));
            assert(all.take(i + 1).drop_last() =~= all.take(i as int));
            lemma_lex_irreflexive(key@);
        }
        match writer.add(key, value) {
            Ok(_) => {},
            Err(e) => {
                proof {
                    if e == WriterError::KeysOutOfOrder {
                        lemma_lex_asymmetric(key@, all.take(i as int).last().0);
                    }
                    lemma_disorder_stays(all, i + 1);
                }
                return Err(e);
            },
        }
        i += 1;
    }
    assert(all.take(i as int) =~= all);
    proof {
        lemma_disorder_means_unsorted(all);
    }
    match writer.finish() {
        Err(e) => Err(e),
        Ok(output) => {
            let (last, _value) = keys_and_values[n - 1];
            assert(all.last().0 == last@);
            Ok(
                BuiltPartition {
                    data: output.data,
                    max_key: lossy_text(last),
                    key_count: n as u32,
                },
            )
        },
    }
}

} // verus!
