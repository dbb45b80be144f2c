//! Secondary index: several locations under each key, added in any order.
//!
//! Finishing sorts the keys and writes a segment whose values are encoded location sets.

use vstd::prelude::*;
use vstd::slice::slice_to_vec;
use crate::order::{
    ascending, find, lemma_find_absent, lemma_find_present, lemma_find_sorted,
    lemma_lex_irreflexive, lemma_lex_transitive, lemma_same_finds, lex_less, Pair,
};
use crate::segment_model::{segment_bytes, segment_written};
use crate::sorted_map::{law_put, lemma_put_at, put, SortedMap};
use crate::values::entity_location::{EntityLocation, Location, ValueDecodeError};
use crate::values::location_set::{
    encode_locations, law_set_round_trip, locations_view, read_set, set_bytes, set_fits,
};
use crate::writer::{SegmentOutput, SegmentWriter, SegmentWriterOptions, WriterError};

verus! {

/// A key and its locations.
pub type Posting = (Seq<u8>, Seq<Location>);

/// Postings after one more location was added under a key.
pub open spec fn accumulate(postings: Seq<Posting>, key: Seq<u8>, location: Location) -> Seq<
    Posting,
> {
    match find(postings, key) {
        None => put(postings, key, seq![location]),
        Some(locations) => put(postings, key, locations.push(location)),
    }
}

/// The entries of the segment: each key with its encoded locations.
pub open spec fn encoded(postings: Seq<Posting>) -> Seq<Pair> {
    postings.map_values(|p: Posting| (p.0, set_bytes(p.1)))
}

/// The number of locations.
pub open spec fn sum_locations(postings: Seq<Posting>) -> nat
    decreases postings.len(),
{
    if postings.len() == 0 {
        0
    } else {
        sum_locations(postings.drop_last()) + postings.last().1.len()
    }
}

proof fn lemma_sum_locations_grows(postings: Seq<Posting>, i: int)
    requires
        0 <= i <= postings.len(),
    ensures
        sum_locations(postings.take(i)) <= sum_locations(postings),
    decreases postings.len(),
{
    if i == postings.len() {
        assert(postings.take(i) =~= postings);
    } else {
        lemma_sum_locations_grows(postings.drop_last(), i);
        assert(postings.drop_last().take(i) =~= postings.take(i));
    }
}

/// Adding a location keeps the keys sorted, appends the location to those of its key and leaves
/// every other key alone.
pub proof fn law_accumulate(postings: Seq<Posting>, key: Seq<u8>, location: Location)
    requires
        ascending(postings),
    ensures
        ascending(accumulate(postings, key, location)),
        find(accumulate(postings, key, location), key) == Some(
            match find(postings, key) {
                None => seq![location],
                Some(locations) => locations.push(location),
            },
        ),
        forall|k: Seq<u8>|
            k != key ==> #[trigger] find(accumulate(postings, key, location), k) == find(
                postings,
                k,
            ),
{
    match find(postings, key) {
        None => law_put(postings, key, seq![location]),
        Some(locations) => law_put(postings, key, locations.push(location)),
    }
}

/// The postings after locations were added one by one, each under its key.
pub open spec fn added(adds: Seq<(Seq<u8>, Location)>) -> Seq<Posting>
    decreases adds.len(),
{
    if adds.len() == 0 {
        Seq::empty()
    } else {
        accumulate(added(adds.drop_last()), adds.last().0, adds.last().1)
    }
}

/// The locations that were added under `key`, in the order in which they were.
pub open spec fn locations_under(adds: Seq<(Seq<u8>, Location)>, key: Seq<u8>) -> Seq<Location>
    decreases adds.len(),
{
    if adds.len() == 0 {
        Seq::empty()
    } else {
        let before = locations_under(adds.drop_last(), key);
        if adds.last().0 == key {
            before.push(adds.last().1)
        } else {
            before
        }
    }
}

/// Adding locations one by one gives the keys in ascending order, each once, with all locations
/// that were added under it in the order in which they were.
pub proof fn law_added(adds: Seq<(Seq<u8>, Location)>)
    ensures
        ascending(added(adds)),
        forall|key: Seq<u8>|
            #[trigger] find(added(adds), key) == if locations_under(adds, key).len() == 0 {
                None
            } else {
                Some(locations_under(adds, key))
            },
    decreases adds.len(),
{
    if adds.len() > 0 {
        let (k, l) = adds.last();
        law_added(adds.drop_last());
        law_accumulate(added(adds.drop_last()), k, l);
        assert forall|key: Seq<u8>|
            #[trigger] find(added(adds), key) == if locations_under(adds, key).len() == 0 {
                None
            } else {
                Some(locations_under(adds, key))
            } by {
            let before = locations_under(adds.drop_last(), key);
            assert(find(added(adds.drop_last()), key) == if before.len() == 0 {
                None
            } else {
                Some(before)
            });
            if key == k && before.len() == 0 {
                assert(before.push(l) =~= seq![l]);
            }
        }
    }
}

proof fn lemma_sum_in_front(p: Posting, rest: Seq<Posting>)
    ensures
        sum_locations(seq![p] + rest) == p.1.len() + sum_locations(rest),
    decreases rest.len(),
{
    let all = seq![p] + rest;
    if rest.len() == 0 {
        assert(all.drop_last() =~= Seq::empty());
        assert(sum_locations(all.drop_last()) == 0);
    } else {
        lemma_sum_in_front(p, rest.drop_last());
        assert(all.drop_last() =~= seq![p] + rest.drop_last());
    }
}

proof fn lemma_sum_of_put(postings: Seq<Posting>, key: Seq<u8>, locations: Seq<Location>)
    requires
        ascending(postings),
    ensures
        sum_locations(put(postings, key, locations)) == sum_locations(postings) + locations.len()
            - match find(postings, key) {
            None => 0,
            Some(held) => held.len(),
        },
    decreases postings.len(),
{
    if postings.len() == 0 || lex_less(key, postings[0].0) {
        assert forall|i: int| 0 <= i < postings.len() implies #[trigger] postings[i].0 != key by {
            if i > 0 {
                assert(lex_less(postings[0].0, postings[i].0));
                lemma_lex_transitive(key, postings[0].0, postings[i].0);
            }
            lemma_lex_irreflexive(key);
        }
        lemma_find_absent(postings, key);
        lemma_sum_in_front((key, locations), postings);
    } else {
        let rest = postings.drop_first();
        assert forall|i: int, j: int| 0 <= i < j < rest.len() implies lex_less(
            #[trigger] rest[i].0,
            #[trigger] rest[j].0,
        ) by {
            assert(rest[i] == postings[i + 1] && rest[j] == postings[j + 1]);
        }
        assert(postings =~= seq![postings[0]] + rest);
        lemma_sum_in_front(postings[0], rest);
        if postings[0].0 == key {
            lemma_sum_in_front((key, locations), rest);
        } else {
            lemma_sum_of_put(rest, key, locations);
            lemma_sum_in_front(postings[0], put(rest, key, locations));
        }
    }
}

/// There are as many locations in all as were added.
pub proof fn law_number_of_locations(adds: Seq<(Seq<u8>, Location)>)
    ensures
        sum_locations(added(adds)) == adds.len(),
    decreases adds.len(),
{
    if adds.len() > 0 {
        let before = added(adds.drop_last());
        let (key, l) = adds.last();
        law_number_of_locations(adds.drop_last());
        law_added(adds.drop_last());
        match find(before, key) {
            None => lemma_sum_of_put(before, key, seq![l]),
            Some(held) => lemma_sum_of_put(before, key, held.push(l)),
        }
    }
}

/// Adding in another order gives the same postings, and so the same segment, as long as the
/// locations under each key keep their order.
pub proof fn law_order_of_adding(
    adds: Seq<(Seq<u8>, Location)>,
    others: Seq<(Seq<u8>, Location)>,
    opts: SegmentWriterOptions,
)
    requires
        forall|key: Seq<u8>| #[trigger]
            locations_under(adds, key) == locations_under(others, key),
    ensures
        added(adds) == added(others),
        segment_bytes(encoded(added(adds)), opts) == segment_bytes(encoded(added(others)), opts),
{
    law_added(adds);
    law_added(others);
    assert forall|key: Seq<u8>| #[trigger] find(added(adds), key) == find(added(others), key) by {
        assert(locations_under(adds, key) == locations_under(others, key));
        assert(find(added(others), key) == find(added(others), key));
    }
    lemma_same_finds(added(adds), added(others));
}

/// The entries of the segment are the keys in order, each with its locations encoded as a set.
pub proof fn law_encoded(postings: Seq<Posting>)
    ensures
        encoded(postings).len() == postings.len(),
        forall|i: int|
            0 <= i < postings.len() ==> #[trigger] encoded(postings)[i] == (
                postings[i].0,
                set_bytes(postings[i].1),
            ),
{
}

/// Locations add up key by key.
pub proof fn law_sum_locations(postings: Seq<Posting>, more: Seq<Posting>)
    ensures
        sum_locations(Seq::empty()) == 0,
        postings.len() == 1 ==> sum_locations(postings) == postings[0].1.len(),
        sum_locations(postings + more) == sum_locations(postings) + sum_locations(more),
    decreases more.len(),
{
    if postings.len() == 1 {
        assert(postings.drop_last() =~= Seq::empty());
        assert(sum_locations(postings.drop_last()) == 0);
    }
    if more.len() == 0 {
        assert(postings + more =~= postings);
    } else {
        assert((postings + more).drop_last() =~= postings + more.drop_last());
        law_sum_locations(postings, more.drop_last());
    }
}

/// What a lookup in the segment gives for a key decodes to the locations of the key; for a key
/// without locations the lookup gives nothing.
pub proof fn law_postings_lookup(postings: Seq<Posting>, key: Seq<u8>)
    requires
        ascending(postings),
        forall|i: int| 0 <= i < postings.len() ==> set_fits((#[trigger] postings[i]).1),
    ensures
        match find(postings, key) {
            None => find(encoded(postings), key) is None,
            Some(locations) => find(encoded(postings), key) matches Some(value) && read_set(value)
                == Ok::<Seq<Location>, ValueDecodeError>(locations),
        },
{
    let e = encoded(postings);
    assert forall|i: int, j: int| 0 <= i < j < e.len() implies lex_less(
        #[trigger] e[i].0,
        #[trigger] e[j].0,
    ) by {
        assert(e[i].0 == postings[i].0 && e[j].0 == postings[j].0);
    }
    if find(postings, key) is Some {
        let i = lemma_find_present(postings, key);
        assert(e[i] == (key, set_bytes(postings[i].1)));
        lemma_find_sorted(e, i);
        assert(set_fits(postings[i].1));
        law_set_round_trip(postings[i].1, Seq::empty());
        assert(set_bytes(postings[i].1) + Seq::<u8>::empty() =~= set_bytes(postings[i].1));
    } else {
        assert forall|i: int| 0 <= i < e.len() implies #[trigger] e[i].0 != key by {
            crate::order::lemma_find_none_means_absent(postings, key, i);
        }
        lemma_find_absent(e, key);
    }
}

/// Options of the secondary index writer.
#[derive(Debug, Clone, Copy, PartialEq, Eq, Structural)]
pub struct SecondaryIndexOptions {
    /// Options of the segment.
    pub segment_options: SegmentWriterOptions,
}

impl Default for SecondaryIndexOptions {
    fn default() -> (opts: Self)
        ensures
            opts == (SecondaryIndexOptions { segment_options: default_segment_options() }),
            opts.segment_options.block_size == 65536,
            opts.segment_options.restart_interval == 16,
            opts.segment_options.enable_bloom,
    {
        SecondaryIndexOptions { segment_options: SegmentWriterOptions::default() }
    }
}

/// The options that a segment has by default.
pub open spec fn default_segment_options() -> SegmentWriterOptions {
    SegmentWriterOptions {
        block_size: crate::format::DEFAULT_BLOCK_SIZE,
        restart_interval: crate::format::DEFAULT_RESTART_INTERVAL,
        enable_bloom: true,
    }
}

/// Postings of a map in memory.
spec fn postings_view(entries: Seq<(Seq<u8>, Vec<EntityLocation>)>) -> Seq<Posting> {
    entries.map_values(|e: (Seq<u8>, Vec<EntityLocation>)| (e.0, locations_view(e.1@)))
}

/// Collects locations by key.
pub struct SecondaryIndexWriter {
    opts: SecondaryIndexOptions,
    entries: SortedMap<Vec<EntityLocation>>,
}

impl View for SecondaryIndexWriter {
    type V = Seq<Posting>;

    closed spec fn view(&self) -> Seq<Posting> {
        postings_view(self.entries@)
    }
}

impl SecondaryIndexWriter {
    /// The options of the writer.
    pub closed spec fn options(&self) -> SecondaryIndexOptions {
        self.opts
    }

    /// Creates a writer with the default options.
    pub fn new() -> (w: Self)
        ensures
            w@ == Seq::<Posting>::empty(),
            w.options().segment_options == default_segment_options(),
            w.options().segment_options == (SegmentWriterOptions {
                block_size: 65536,
                restart_interval: 16,
                enable_bloom: true,
            }),
    {
        SecondaryIndexWriter::with_options(SecondaryIndexOptions::default())
    }

    /// Creates a writer.
    pub fn with_options(opts: SecondaryIndexOptions) -> (w: Self)
        ensures
            w@ == Seq::<Posting>::empty(),
            w.options() == opts,
    {
        let w = SecondaryIndexWriter { opts, entries: SortedMap::new() };
        assert(w@ =~= Seq::empty());
        w
    }

    /// Adds a location under a key, behind those that the key has.
    pub fn add_location(&mut self, key: &[u8], location: EntityLocation)
        ensures
            final(self)@ == accumulate(old(self)@, key@, location@),
            ascending(old(self)@),
            ascending(final(self)@),
            final(self).options() == old(self).options(),
    {
        let ghost before = self@;
        let ghost l = location@;
        let n: usize = self.entries.len();
        let (i, there) = self.entries.place(key);
        let ghost keys = self.entries@;
        assert forall|j: int| 0 <= j < before.len() implies (#[trigger] before[j]).0
            == keys[j].0 by {}
        assert forall|j: int| 0 <= j < i implies lex_less((#[trigger] before[j]).0, key@) by {
            assert(lex_less(keys[j].0, key@));
        }
        assert forall|a: int, b: int| 0 <= a < b < before.len() implies lex_less(
            #[trigger] before[a].0,
            #[trigger] before[b].0,
        ) by {
            assert(lex_less(keys[a].0, keys[b].0));
        }
        proof {
            law_accumulate(before, key@, l);
        }
        if there {
            let mut locations = self.entries.exchange(i, Vec::new());
            let ghost held = locations_view(locations@);
            locations.push(location);
            assert(locations_view(locations@) =~= held.push(l));
            let _empty = self.entries.exchange(i, locations);
            proof {
                lemma_find_sorted(before, i as int);
                lemma_put_at(before, key@, held.push(l), i as int);
                assert(self@ =~= before.update(i as int, (key@, held.push(l))));
            }
        } else {
            let mut locations: Vec<EntityLocation> = Vec::new();
            locations.push(location);
            assert(locations_view(locations@) =~= seq![l]);
            proof {
                assert forall|j: int| 0 <= j < before.len() implies #[trigger] before[j].0
                    != key@ by {
                    lemma_lex_irreflexive(key@);
                    if j > i {
                        assert(lex_less(keys[i as int].0, keys[j].0));
                    }
                }
                lemma_find_absent(before, key@);
                lemma_put_at(before, key@, seq![l], i as int);
                lemma_put_at(keys, key@, locations, i as int);
            }
            self.entries.insert(slice_to_vec(key), locations);
            assert(self@ =~= before.insert(i as int, (key@, seq![l])));
        }
    }

    /// Number of different keys. They are sorted, none twice.
    pub fn key_count(&self) -> (n: usize)
        ensures
            n as nat == self@.len(),
            ascending(self@),
    {
        let n: usize = self.entries.len();
        let ghost keys = self.entries@;
        assert forall|a: int, b: int| 0 <= a < b < self@.len() implies lex_less(
            #[trigger] self@[a].0,
            #[trigger] self@[b].0,
        ) by {
            assert(lex_less(keys[a].0, keys[b].0));
        }
        n
    }

    /// Number of locations under all keys.
    pub fn total_locations(&self) -> (n: usize)
        requires
            sum_locations(self@) <= usize::MAX,
        ensures
            n as nat == sum_locations(self@),
    {
        let count: usize = self.entries.len();
        let mut sum: usize = 0;
        let mut i: usize = 0;
        assert(self@.take(0) =~= Seq::empty());
        while i < count
            invariant
                i <= count == self@.len(),
                self@ == postings_view(self.entries@),
                sum as nat == sum_locations(self@.take(i as int)),
                sum_locations(self@) <= usize::MAX,
            decreases count - i,
        {
            let (_key, locations) = self.entries.entry(i);
            proof {
                assert(self@.take(i + 1).drop_last() =~= self@.take(i as int));
                assert(self@[i as int].1.len() == locations@.len());
                lemma_sum_locations_grows(self@, i + 1);
            }
            sum = sum + locations.len();
            i += 1;
        }
        assert(self@.take(i as int) =~= self@);
        sum
    }

    /// Writes the segment: the keys in ascending order, each with its encoded locations. At least
    /// one location must have been added.
    pub fn finish(self) -> (r: Result<SegmentOutput, WriterError>)
        requires
            self@.len() <= u32::MAX,
        ensures
            match r {
                Ok(out) => {
                    let entries = encoded(self@);
                    &&& self@.len() > 0
                    &&& ascending(self@)
                    &&& segment_written(out.data@, entries, self.options().segment_options)
                    &&& out.meta.generation == 0
                    &&& out.meta.path@ == Seq::<char>::empty()
                    &&& out.meta.size_bytes == out.data@.len()
                    &&& out.meta.key_count == entries.len()
                    &&& out.meta.min_key@ == entries[0].0
                    &&& out.meta.max_key@ == entries.last().0
                },
                Err(e) => self@.len() == 0 && e is EmptySegment,
            },
    {
        let n: usize = self.entries.len();
        if n == 0 {
            return Err(WriterError::EmptySegment);
        }
        let ghost all = encoded(self@);
        let ghost keys = self.entries@;
        assert forall|a: int, b: int| 0 <= a < b < self@.len() implies lex_less(
            #[trigger] self@[a].0,
            #[trigger] self@[b].0,
        ) by {
            assert(lex_less(keys[a].0, keys[b].0));
        }
        let mut writer = SegmentWriter::new(self.opts.segment_options);
        let mut i: usize = 0;
        assert(all.take(0) =~= Seq::empty());
        while i < n
            invariant
                i <= n == self@.len(),
                n <= u32::MAX,
                ascending(self@),
                self@ == postings_view(self.entries@),
                all == encoded(self@),
                writer.wf(),
                writer.options() == self.opts.segment_options,
                writer.entries() == all.take(i as int),
            decreases n - i,
        {
            let (key, locations) = self.entries.entry(i);
            let value = encode_locations(locations);
            proof {
                assert(all[i as int] == (key@, value@));
                assert(all.take(i + 1) =~= all.take(i as int).push((key@, value@)));
                if i > 0 {
                    assert(lex_less(self@[i - 1].0, self@[i as int].0));
                    assert(all.take(i as int).last().0 == self@[i - 1].0);
                }
            }
            match writer.add(key.as_slice(), value.as_slice()) {
                Ok(_) => {},
                Err(e) => {
                    return Err(e);
                },
            }
            i += 1;
        }
        assert(all.take(i as int) =~= all);
        writer.finish()
    }
}

impl Default for SecondaryIndexWriter {
    fn default() -> (w: Self)
        ensures
            w@ == Seq::<Posting>::empty(),
            w.options().segment_options == default_segment_options(),
    {
        SecondaryIndexWriter::new()
    }
}

} // verus!
