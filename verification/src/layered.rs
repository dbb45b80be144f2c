//! Layered index: a base segment and delta segments over it.
//!
//! Segments are asked newest first; the first that holds a key decides. A tombstone says that the
//! key was deleted. Merging base and deltas gives a new base without tombstones.

use vstd::prelude::*;
use crate::block_proof::lengths_fit;
use crate::order::{
    ascending, find, lemma_find_absent, lemma_find_concat, lemma_find_none_means_absent,
    lemma_find_present, lemma_find_sorted, lex_less, Pair,
};
use crate::reader::{found, pairs_view, ReaderError, SegmentReader};
use crate::segment_model::{
    open_segment, segment_entries, segment_get, segment_holds, segment_written, Fault, SegmentView,
};
use crate::sorted_map::{law_put, law_without, lemma_put_at, put, without, SortedMap};
use crate::writer::{SegmentWriter, SegmentWriterOptions, WriterError};

verus! {

/// A value of this one byte marks a deleted key.
pub const TOMBSTONE_MARKER: u8 = 0xFF;

/// From this many deltas on, a merge is recommended.
pub const MAX_DELTA_COUNT: usize = 10;

/// If the deltas together exceed this percentage of the size of the base, a merge is recommended.
pub const MAX_DELTA_PERCENT: u64 = 30;

// ---------------------------------------------------------------------------
// Model
// ---------------------------------------------------------------------------

/// Whether a value marks its key as deleted.
pub open spec fn deleted(value: Seq<u8>) -> bool {
    value == seq![TOMBSTONE_MARKER]
}

/// What a key has in layers, newest first: the newest layer that holds the key decides.
pub open spec fn layers_find(layers: Seq<Seq<Pair>>, key: Seq<u8>) -> Option<Seq<u8>>
    decreases layers.len(),
{
    if layers.len() == 0 {
        None
    } else {
        match find(layers[0], key) {
            None => layers_find(layers.drop_first(), key),
            Some(value) => if deleted(value) {
                None
            } else {
                Some(value)
            },
        }
    }
}

/// Looks a key up in segments, newest first, up to the first that holds the key or fails.
pub open spec fn layered_get(segments: Seq<SegmentView>, key: Seq<u8>) -> Result<
    Option<Seq<u8>>,
    Fault,
>
    decreases segments.len(),
{
    if segments.len() == 0 {
        Ok(None)
    } else {
        match segment_get(segments[0], key) {
            Err(fault) => Err(fault),
            Ok(None) => layered_get(segments.drop_first(), key),
            Ok(Some(value)) => Ok(
                if deleted(value) {
                    None
                } else {
                    Some(value)
                },
            ),
        }
    }
}

/// The entries of all segments, or the fault of the oldest that has one.
pub open spec fn layers_of(segments: Seq<SegmentView>) -> Result<Seq<Seq<Pair>>, Fault>
    decreases segments.len(),
{
    if segments.len() == 0 {
        Ok(Seq::empty())
    } else {
        match layers_of(segments.drop_first()) {
            Err(fault) => Err(fault),
            Ok(older) => match segment_entries(segments[0]) {
                Err(fault) => Err(fault),
                Ok(entries) => Ok(seq![entries] + older),
            },
        }
    }
}

/// A sorted list after the entries of one layer are laid over it: they replace, and tombstones
/// remove.
pub open spec fn overlay(base: Seq<Pair>, layer: Seq<Pair>) -> Seq<Pair>
    decreases layer.len(),
{
    if layer.len() == 0 {
        base
    } else {
        let before = overlay(base, layer.drop_last());
        let e = layer.last();
        if deleted(e.1) {
            without(before, e.0)
        } else {
            put(before, e.0, e.1)
        }
    }
}

/// All layers laid over one another, newest last.
pub open spec fn merged(layers: Seq<Seq<Pair>>) -> Seq<Pair>
    decreases layers.len(),
{
    if layers.len() == 0 {
        Seq::empty()
    } else {
        overlay(merged(layers.drop_first()), layers[0])
    }
}

/// The options that merged segments are written with.
pub open spec fn merge_options() -> SegmentWriterOptions {
    SegmentWriterOptions { block_size: 65536, restart_interval: 16, enable_bloom: true }
}

// ---------------------------------------------------------------------------
// Laws
// ---------------------------------------------------------------------------

/// What a layer does to lookups: a key of the layer is looked up there, any other below.
pub proof fn lemma_overlay(base: Seq<Pair>, layer: Seq<Pair>, key: Seq<u8>)
    requires
        ascending(base),
        ascending(layer),
    ensures
        ascending(overlay(base, layer)),
        find(overlay(base, layer), key) == match find(layer, key) {
            None => find(base, key),
            Some(value) => if deleted(value) {
                None
            } else {
                Some(value)
            },
        },
    decreases layer.len(),
{
    if layer.len() > 0 {
        let fewer = layer.drop_last();
        let e = layer.last();
        assert forall|i: int, j: int| 0 <= i < j < fewer.len() implies lex_less(
            #[trigger] fewer[i].0,
            #[trigger] fewer[j].0,
        ) by {
            assert(fewer[i] == layer[i] && fewer[j] == layer[j]);
        }
        lemma_overlay(base, fewer, key);
        let before = overlay(base, fewer);
        law_put(before, e.0, e.1);
        law_without(before, e.0);
        assert(find(put(before, e.0, e.1), key) == if key == e.0 {
            Some(e.1)
        } else {
            find(before, key)
        });
        assert(find(without(before, e.0), key) == if key == e.0 {
            None
        } else {
            find(before, key)
        });
        assert(layer =~= fewer + seq![e]);
        lemma_find_concat(fewer, seq![e], key);
        if key == e.0 {
            lemma_find_sorted(layer, layer.len() - 1);
        } else {
            lemma_find_absent(seq![e], key);
        }
    }
}

/// Merging keeps every lookup: what the merged list holds under a key is what the layers, asked
/// newest first, say of it. The merged list is sorted.
pub proof fn law_merge_keeps_lookups(layers: Seq<Seq<Pair>>, key: Seq<u8>)
    requires
        forall|i: int| 0 <= i < layers.len() ==> ascending(#[trigger] layers[i]),
    ensures
        ascending(merged(layers)),
        find(merged(layers), key) == layers_find(layers, key),
    decreases layers.len(),
{
    if layers.len() > 0 {
        let older = layers.drop_first();
        assert forall|i: int| 0 <= i < older.len() implies ascending(#[trigger] older[i]) by {
            assert(older[i] == layers[i + 1]);
        }
        law_merge_keeps_lookups(older, key);
        assert(ascending(layers[0]));
        lemma_overlay(merged(older), layers[0], key);
    }
}

/// Merging leaves no tombstone: no value of the merged list marks its key as deleted.
pub proof fn law_merge_drops_tombstones(layers: Seq<Seq<Pair>>, i: int)
    requires
        forall|j: int| 0 <= j < layers.len() ==> ascending(#[trigger] layers[j]),
        0 <= i < merged(layers).len(),
    ensures
        !deleted(merged(layers)[i].1),
{
    let all = merged(layers);
    law_merge_keeps_lookups(layers, all[i].0);
    lemma_find_sorted(all, i);
    lemma_layers_find_alive(layers, all[i].0);
}

/// What layers say of a key is never a tombstone.
proof fn lemma_layers_find_alive(layers: Seq<Seq<Pair>>, key: Seq<u8>)
    ensures
        layers_find(layers, key) matches Some(value) ==> !deleted(value),
    decreases layers.len(),
{
    if layers.len() > 0 {
        lemma_layers_find_alive(layers.drop_first(), key);
    }
}

/// Looking a key up in segments, each of which gives its entries back, is looking it up in the
/// entries.
pub proof fn law_layered_get(
    segments: Seq<Seq<u8>>,
    views: Seq<SegmentView>,
    layers: Seq<Seq<Pair>>,
    key: Seq<u8>,
)
    requires
        segments.len() == layers.len(),
        views.len() == layers.len(),
        forall|i: int|
            0 <= i < layers.len() ==> segment_holds(segments[i], #[trigger] layers[i])
                && open_segment(segments[i]) == Ok::<SegmentView, Fault>(
                views[i],
            ),
    ensures
        layered_get(views, key) == Ok::<Option<Seq<u8>>, Fault>(layers_find(layers, key)),
        layers_of(views) == Ok::<Seq<Seq<Pair>>, Fault>(layers),
    decreases layers.len(),
{
    if layers.len() > 0 {
        let (s, v, l) = (segments.drop_first(), views.drop_first(), layers.drop_first());
        assert forall|i: int| 0 <= i < l.len() implies segment_holds(s[i], #[trigger] l[i])
            && open_segment(s[i]) == Ok::<SegmentView, Fault>(v[i]) by {
            assert(l[i] == layers[i + 1]);
        }
        law_layered_get(s, v, l, key);
        assert(segment_holds(segments[0], layers[0]));
        assert(segment_get(views[0], key) == Ok::<Option<Seq<u8>>, Fault>(find(layers[0], key)));
        assert(seq![layers[0]] + l =~= layers);
    } else {
        assert(layers =~= Seq::empty());
    }
}

/// A merge cannot be told from what it merged: looking a key up in a segment that gives the merged
/// entries back is looking it up in the segments, newest first.
pub proof fn law_merge_is_transparent(
    segments: Seq<Seq<u8>>,
    views: Seq<SegmentView>,
    layers: Seq<Seq<Pair>>,
    merge: Seq<u8>,
    key: Seq<u8>,
)
    requires
        segments.len() == layers.len(),
        views.len() == layers.len(),
        forall|i: int|
            0 <= i < layers.len() ==> ascending(#[trigger] layers[i]) && segment_holds(
                segments[i],
                layers[i],
            ) && open_segment(segments[i]) == Ok::<SegmentView, Fault>(views[i]),
        segment_holds(merge, merged(layers)),
    ensures
        open_segment(merge) matches Ok(m) && segment_get(m, key) == layered_get(views, key),
{
    assert forall|i: int| 0 <= i < layers.len() implies segment_holds(
        segments[i],
        #[trigger] layers[i],
    ) && open_segment(segments[i]) == Ok::<SegmentView, Fault>(views[i]) by {
        assert(ascending(layers[i]));
    }
    law_layered_get(segments, views, layers, key);
    law_merge_keeps_lookups(layers, key);
    let m = open_segment(merge)->Ok_0;
    assert(segment_get(m, key) == Ok::<Option<Seq<u8>>, Fault>(find(merged(layers), key)));
}

/// Merging a single segment without tombstones changes nothing.
pub proof fn law_merge_of_one(layer: Seq<Pair>)
    requires
        ascending(layer),
        forall|i: int| 0 <= i < layer.len() ==> !deleted((#[trigger] layer[i]).1),
    ensures
        merged(seq![layer]) == layer,
    decreases layer.len(),
{
    assert(seq![layer].drop_first() =~= Seq::empty());
    assert(merged(seq![layer].drop_first()) =~= Seq::empty());
    lemma_overlay_nothing(layer);
}

proof fn lemma_overlay_nothing(layer: Seq<Pair>)
    requires
        ascending(layer),
        forall|i: int| 0 <= i < layer.len() ==> !deleted((#[trigger] layer[i]).1),
    ensures
        overlay(Seq::empty(), layer) == layer,
    decreases layer.len(),
{
    if layer.len() > 0 {
        let fewer = layer.drop_last();
        let e = layer.last();
        assert forall|i: int, j: int| 0 <= i < j < fewer.len() implies lex_less(
            #[trigger] fewer[i].0,
            #[trigger] fewer[j].0,
        ) by {
            assert(fewer[i] == layer[i] && fewer[j] == layer[j]);
        }
        assert forall|i: int| 0 <= i < fewer.len() implies !deleted((#[trigger] fewer[i]).1) by {
            assert(fewer[i] == layer[i]);
        }
        lemma_overlay_nothing(fewer);
        assert forall|j: int| 0 <= j < fewer.len() implies lex_less(
            (#[trigger] fewer[j]).0,
            e.0,
        ) by {
            assert(lex_less(layer[j].0, layer[layer.len() - 1].0));
        }
        lemma_put_at(fewer, e.0, e.1, fewer.len() as int);
        assert(!deleted(layer[layer.len() - 1].1));
        assert(fewer.insert(fewer.len() as int, e) =~= layer);
    } else {
        assert(layer =~= Seq::empty());
    }
}

/// Merging keeps lengths: those of the merged entries can be stored if those of the layers can.
pub proof fn law_merge_keeps_lengths(layers: Seq<Seq<Pair>>)
    requires
        forall|i: int|
            0 <= i < layers.len() ==> ascending(#[trigger] layers[i]) && lengths_fit(layers[i]),
    ensures
        lengths_fit(merged(layers)),
{
    let all = merged(layers);
    assert forall|i: int| 0 <= i < all.len() implies (#[trigger] all[i]).0.len() < 0x1_0000_0000
        && all[i].1.len() < 0x1_0000_0000 by {
        law_merge_keeps_lookups(layers, all[i].0);
        lemma_find_sorted(all, i);
        lemma_layers_find_fits(layers, all[i].0);
    }
}

proof fn lemma_layers_find_fits(layers: Seq<Seq<Pair>>, key: Seq<u8>)
    requires
        forall|i: int| 0 <= i < layers.len() ==> lengths_fit(#[trigger] layers[i]),
        layers_find(layers, key) is Some,
    ensures
        key.len() < 0x1_0000_0000,
        layers_find(layers, key)->Some_0.len() < 0x1_0000_0000,
    decreases layers.len(),
{
    if find(layers[0], key) is Some {
        let i = lemma_find_present(layers[0], key);
        assert(lengths_fit(layers[0]));
        assert(layers[0][i].0.len() < 0x1_0000_0000);
    } else {
        let older = layers.drop_first();
        assert forall|i: int| 0 <= i < older.len() implies lengths_fit(#[trigger] older[i]) by {
            assert(older[i] == layers[i + 1]);
        }
        lemma_layers_find_fits(older, key);
    }
}

/// Only the one byte 0xFF marks a key as deleted. A value of any other length is a value, whatever
/// its bytes.
pub proof fn law_tombstone(value: Seq<u8>)
    ensures
        deleted(value) <==> value.len() == 1 && value[0] == 0xFF,
        value.len() != 1 ==> !deleted(value),
{
    if value.len() == 1 && value[0] == 0xFF {
        assert(value =~= seq![TOMBSTONE_MARKER]);
    }
}

/// The newest layer that holds a key decides: its value is what the key has, unless that is the
/// one byte 0xFF; then the key has nothing, whatever older layers hold. The merged list says the
/// same of the key.
pub proof fn law_newest_wins(layers: Seq<Seq<Pair>>, key: Seq<u8>, i: int, k: int)
    requires
        forall|j: int| 0 <= j < layers.len() ==> ascending(#[trigger] layers[j]),
        0 <= i < layers.len(),
        0 <= k < layers[i].len(),
        layers[i][k].0 == key,
        forall|j: int, m: int|
            0 <= j < i && 0 <= m < layers[j].len() ==> (#[trigger] layers[j][m]).0 != key,
    ensures
        ({
            let value = layers[i][k].1;
            if value.len() == 1 && value[0] == 0xFF {
                &&& layers_find(layers, key) is None
                &&& forall|m: int|
                    0 <= m < merged(layers).len() ==> (#[trigger] merged(layers)[m]).0 != key
            } else {
                &&& layers_find(layers, key) == Some(value)
                &&& exists|m: int|
                    0 <= m < merged(layers).len() && #[trigger] merged(layers)[m] == (key, value)
            }
        }),
{
    let value = layers[i][k].1;
    assert(ascending(layers[i]));
    lemma_find_sorted(layers[i], k);
    assert forall|j: int| 0 <= j < i implies find(#[trigger] layers[j], key) is None by {
        assert forall|m: int| 0 <= m < layers[j].len() implies #[trigger] layers[j][m].0
            != key by {}
        lemma_find_absent(layers[j], key);
    }
    lemma_newest_decides(layers, key, i);
    law_tombstone(value);
    law_merge_keeps_lookups(layers, key);
    if deleted(value) {
        assert forall|m: int| 0 <= m < merged(layers).len() implies (
        #[trigger] merged(layers)[m]).0 != key by {
            lemma_find_none_means_absent(merged(layers), key, m);
        }
    } else {
        let m = lemma_find_present(merged(layers), key);
        assert(merged(layers)[m] == (key, value));
    }
}

proof fn lemma_newest_decides(layers: Seq<Seq<Pair>>, key: Seq<u8>, i: int)
    requires
        0 <= i < layers.len(),
        find(layers[i], key) is Some,
        forall|j: int| 0 <= j < i ==> find(#[trigger] layers[j], key) is None,
    ensures
        layers_find(layers, key) == if deleted(find(layers[i], key)->Some_0) {
            None
        } else {
            find(layers[i], key)
        },
    decreases layers.len(),
{
    if i > 0 {
        let older = layers.drop_first();
        assert(find(layers[0], key) is None);
        assert forall|j: int| 0 <= j < i - 1 implies find(#[trigger] older[j], key) is None by {
            assert(older[j] == layers[j + 1]);
        }
        lemma_newest_decides(older, key, i - 1);
    }
}

/// A key that no layer holds has nothing, and the merged list does not hold it.
pub proof fn law_in_no_layer(layers: Seq<Seq<Pair>>, key: Seq<u8>)
    requires
        forall|j: int| 0 <= j < layers.len() ==> ascending(#[trigger] layers[j]),
        forall|j: int, m: int|
            0 <= j < layers.len() && 0 <= m < layers[j].len() ==> (#[trigger] layers[j][m]).0
                != key,
    ensures
        layers_find(layers, key) is None,
        forall|m: int| 0 <= m < merged(layers).len() ==> (#[trigger] merged(layers)[m]).0 != key,
{
    lemma_in_no_layer(layers, key);
    law_merge_keeps_lookups(layers, key);
    assert forall|m: int| 0 <= m < merged(layers).len() implies (#[trigger] merged(layers)[m]).0
        != key by {
        lemma_find_none_means_absent(merged(layers), key, m);
    }
}

proof fn lemma_in_no_layer(layers: Seq<Seq<Pair>>, key: Seq<u8>)
    requires
        forall|j: int, m: int|
            0 <= j < layers.len() && 0 <= m < layers[j].len() ==> (#[trigger] layers[j][m]).0
                != key,
    ensures
        layers_find(layers, key) is None,
    decreases layers.len(),
{
    if layers.len() > 0 {
        let older = layers.drop_first();
        assert forall|m: int| 0 <= m < layers[0].len() implies #[trigger] layers[0][m].0
            != key by {}
        lemma_find_absent(layers[0], key);
        assert forall|j: int, m: int|
            0 <= j < older.len() && 0 <= m < older[j].len() implies (#[trigger] older[j][m]).0
            != key by {
            assert(older[j] == layers[j + 1]);
            assert(layers[j + 1][m].0 != key);
        }
        lemma_in_no_layer(older, key);
    }
}

/// A lookup asks segments newest first and stops at the first that holds the key or fails: its
/// error is the answer, or its value is, unless that is the one byte 0xFF; then there is none.
pub proof fn law_lookup_stops(segments: Seq<SegmentView>, key: Seq<u8>, i: int)
    requires
        0 <= i <= segments.len(),
        forall|j: int|
            0 <= j < i ==> segment_get(#[trigger] segments[j], key) == Ok::<
                Option<Seq<u8>>,
                Fault,
            >(None),
    ensures
        i == segments.len() ==> layered_get(segments, key) == Ok::<Option<Seq<u8>>, Fault>(None),
        i < segments.len() ==> match segment_get(segments[i], key) {
            Err(fault) => layered_get(segments, key) == Err::<Option<Seq<u8>>, Fault>(fault),
            Ok(Some(value)) => layered_get(segments, key) == Ok::<Option<Seq<u8>>, Fault>(
                if value.len() == 1 && value[0] == 0xFF {
                    None
                } else {
                    Some(value)
                },
            ),
            Ok(None) => true,
        },
    decreases segments.len(),
{
    if i > 0 {
        let older = segments.drop_first();
        assert(segment_get(segments[0], key) == Ok::<Option<Seq<u8>>, Fault>(None));
        assert forall|j: int| 0 <= j < i - 1 implies segment_get(#[trigger] older[j], key) == Ok::<
            Option<Seq<u8>>,
            Fault,
        >(None) by {
            assert(older[j] == segments[j + 1]);
        }
        law_lookup_stops(older, key, i - 1);
    } else if segments.len() > 0 {
        if let Ok(Some(value)) = segment_get(segments[0], key) {
            law_tombstone(value);
        }
    }
}

/// What is merged is all entries of each segment, in the order of the segments; if one cannot be
/// read, the error is that of the oldest such segment.
pub proof fn law_layers_of(segments: Seq<SegmentView>)
    ensures
        match layers_of(segments) {
            Ok(layers) => layers.len() == segments.len() && forall|i: int|
                0 <= i < segments.len() ==> segment_entries(#[trigger] segments[i]) == Ok::<
                    Seq<Pair>,
                    Fault,
                >(layers[i]),
            Err(fault) => exists|i: int|
                {
                    &&& 0 <= i < segments.len()
                    &&& segment_entries(#[trigger] segments[i]) == Err::<Seq<Pair>, Fault>(fault)
                    &&& forall|j: int|
                        i < j < segments.len() ==> segment_entries(#[trigger] segments[j]) is Ok
                },
        },
    decreases segments.len(),
{
    if segments.len() > 0 {
        let older = segments.drop_first();
        law_layers_of(older);
        match layers_of(older) {
            Err(fault) => {
                let i = choose|i: int|
                    {
                        &&& 0 <= i < older.len()
                        &&& segment_entries(#[trigger] older[i]) == Err::<Seq<Pair>, Fault>(fault)
                        &&& forall|j: int|
                            i < j < older.len() ==> segment_entries(#[trigger] older[j]) is Ok
                    };
                assert(segments[i + 1] == older[i]);
                assert forall|j: int| i + 1 < j < segments.len() implies segment_entries(
                    #[trigger] segments[j],
                ) is Ok by {
                    assert(older[j - 1] == segments[j]);
                }
                assert(segment_entries(segments[i + 1]) == Err::<Seq<Pair>, Fault>(fault));
            },
            Ok(below) => {
                assert forall|j: int| 1 <= j < segments.len() implies segment_entries(
                    #[trigger] segments[j],
                ) == Ok::<Seq<Pair>, Fault>(below[j - 1]) by {
                    assert(older[j - 1] == segments[j]);
                }
                if let Err(fault) = segment_entries(segments[0]) {
                    assert(segment_entries(segments[0]) == Err::<Seq<Pair>, Fault>(fault));
                }
            },
        }
    }
}

/// Readers stand for their segments, in order, and merged entries for their keys and values.
pub proof fn law_layer_views(
    segments: Seq<SegmentReader>,
    entries: Seq<(Seq<u8>, Vec<u8>)>,
)
    ensures
        segment_views(segments).len() == segments.len(),
        forall|i: int|
            0 <= i < segments.len() ==> #[trigger] segment_views(segments)[i] == segments[i]@,
        plain(entries).len() == entries.len(),
        forall|i: int|
            0 <= i < entries.len() ==> #[trigger] plain(entries)[i] == (
                entries[i].0,
                entries[i].1@,
            ),
{
}

/// A merged segment has blocks of 64 KB, a restart point every 16 entries and a filter.
pub proof fn law_merge_options()
    ensures
        merge_options().block_size == 64 * 1024,
        merge_options().restart_interval == 16,
        merge_options().enable_bloom,
{
}

// ---------------------------------------------------------------------------
// Tombstones
// ---------------------------------------------------------------------------

/// A value that marks its key as deleted.
pub fn tombstone_value() -> (value: Vec<u8>)
    ensures
        value@ == seq![TOMBSTONE_MARKER],
        value@ == seq![0xFFu8],
        deleted(value@),
{
    let mut value: Vec<u8> = Vec::new();
    value.push(TOMBSTONE_MARKER);
    assert(value@ =~= seq![TOMBSTONE_MARKER]);
    value
}

/// Whether a value marks its key as deleted.
pub fn is_tombstone(value: &[u8]) -> (r: bool)
    ensures
        r == deleted(value@),
        r <==> value@.len() == 1 && value@[0] == 0xFF,
{
    let r = value.len() == 1 && value[0] == TOMBSTONE_MARKER;
    proof {
        if r {
            assert(value@ =~= seq![TOMBSTONE_MARKER]);
        }
    }
    r
}

/// What one segment's answer decides: `None` if the next older segment must be asked, otherwise
/// the answer for the key.
pub fn resolve_layer(value: Option<Vec<u8>>) -> (r: Option<Option<Vec<u8>>>)
    ensures
        match value {
            None => r is None,
            Some(v) => if deleted(v@) {
                r == Some(None::<Vec<u8>>)
            } else {
                r == Some(Some(v))
            },
        },
        value matches Some(v) ==> r == if v@.len() == 1 && v@[0] == 0xFF {
            Some(None::<Vec<u8>>)
        } else {
            Some(Some(v))
        },
{
    match value {
        None => None,
        Some(v) => if is_tombstone(v.as_slice()) {
            Some(None)
        } else {
            Some(Some(v))
        },
    }
}

/// Whether a merge is recommended for an index of this many segments, one of them the base.
pub fn too_many_deltas(segment_count: usize) -> (r: bool)
    ensures
        r == (segment_count >= MAX_DELTA_COUNT + 1),
        r == (segment_count > 10),
{
    segment_count > 1 && segment_count - 1 >= MAX_DELTA_COUNT
}

// ---------------------------------------------------------------------------
// LayeredReader
// ---------------------------------------------------------------------------

/// What readers of segments stand for.
pub open spec fn segment_views(segments: Seq<SegmentReader>) -> Seq<SegmentView> {
    segments.map_values(|s: SegmentReader| s@)
}

/// The sum of the segments' key counts.
pub open spec fn sum_key_counts(segments: Seq<SegmentView>) -> nat
    decreases segments.len(),
{
    if segments.len() == 0 {
        0
    } else {
        sum_key_counts(segments.drop_last()) + segments.last().meta.footer.key_count as nat
    }
}

/// Key counts add up segment by segment.
pub proof fn law_sum_key_counts(segments: Seq<SegmentView>, more: Seq<SegmentView>)
    ensures
        sum_key_counts(Seq::empty()) == 0,
        segments.len() == 1 ==> sum_key_counts(segments) == segments[0].meta.footer.key_count,
        sum_key_counts(segments + more) == sum_key_counts(segments) + sum_key_counts(more),
    decreases more.len(),
{
    if segments.len() == 1 {
        assert(segments.drop_last() =~= Seq::empty());
        assert(sum_key_counts(segments.drop_last()) == 0);
    }
    if more.len() == 0 {
        assert(segments + more =~= segments);
    } else {
        assert((segments + more).drop_last() =~= segments + more.drop_last());
        law_sum_key_counts(segments, more.drop_last());
    }
}

proof fn lemma_sum_key_counts_grows(segments: Seq<SegmentView>, i: int)
    requires
        0 <= i <= segments.len(),
    ensures
        sum_key_counts(segments.take(i)) <= sum_key_counts(segments),
    decreases segments.len(),
{
    if i == segments.len() {
        assert(segments.take(i) =~= segments);
    } else {
        lemma_sum_key_counts_grows(segments.drop_last(), i);
        assert(segments.drop_last().take(i) =~= segments.take(i));
    }
}

/// Reads a layered index whose segments are all in memory.
#[derive(Debug)]
pub struct LayeredReader {
    /// The segments, newest first; the last one is the base.
    segments: Vec<SegmentReader>,
}

impl View for LayeredReader {
    type V = Seq<SegmentView>;

    closed spec fn view(&self) -> Seq<SegmentView> {
        segment_views(self.segments@)
    }
}

impl LayeredReader {
    /// Creates a reader from segments, newest first.
    pub fn new(segments: Vec<SegmentReader>) -> (r: Self)
        ensures
            r@ == segment_views(segments@),
            r@.len() == segments@.len(),
            forall|i: int| 0 <= i < segments@.len() ==> #[trigger] r@[i] == segments@[i]@,
    {
        LayeredReader { segments }
    }

    /// Looks a key up. Returns its value in the newest segment that holds the key, or none if no
    /// segment does or the key was deleted.
    pub fn get(&self, key: &[u8]) -> (r: Result<Option<Vec<u8>>, ReaderError>)
        ensures
            found(r) == layered_get(self@, key@),
    {
        let mut i: usize = 0;
        assert(self@.skip(0) =~= self@);
        while i < self.segments.len()
            invariant
                i <= self.segments@.len(),
                self@ == segment_views(self.segments@),
                layered_get(self@, key@) == layered_get(self@.skip(i as int), key@),
            decreases self.segments@.len() - i,
        {
            let ghost rest = self@.skip(i as int);
            assert(rest[0] == self.segments@[i as int]@);
            assert(rest.drop_first() =~= self@.skip(i + 1));
            proof {
                reveal(segment_get);
            }
            let segment: &SegmentReader = &self.segments[i];
            if segment.might_contain(key) {
                match segment.get(key) {
                    Err(e) => {
                        return Err(e);
                    },
                    Ok(value) => match resolve_layer(value) {
                        Some(answer) => {
                            return Ok(answer);
                        },
                        None => {},
                    },
                }
            }
            i += 1;
        }
        Ok(None)
    }

    /// Number of segments.
    pub fn segment_count(&self) -> (n: usize)
        ensures
            n as nat == self@.len(),
    {
        self.segments.len()
    }

    /// Sum of the segments' key counts. Keys in several segments and deleted keys count each time.
    pub fn total_keys(&self) -> (n: u32)
        requires
            sum_key_counts(self@) <= u32::MAX,
        ensures
            n as nat == sum_key_counts(self@),
    {
        let mut sum: u32 = 0;
        let mut i: usize = 0;
        assert(self@.take(0) =~= Seq::empty());
        while i < self.segments.len()
            invariant
                i <= self.segments@.len(),
                self@ == segment_views(self.segments@),
                sum as nat == sum_key_counts(self@.take(i as int)),
                sum_key_counts(self@) <= u32::MAX,
            decreases self.segments@.len() - i,
        {
            proof {
                assert(self@.take(i + 1).drop_last() =~= self@.take(i as int));
                assert(self@.take(i + 1).last() == self.segments@[i as int]@);
                lemma_sum_key_counts_grows(self@, i + 1);
            }
            sum = sum + self.segments[i].key_count();
            i += 1;
        }
        assert(self@.take(i as int) =~= self@);
        sum
    }

    /// Whether a merge is recommended: there are too many deltas.
    pub fn should_merge(&self) -> (r: bool)
        ensures
            r == (self@.len() >= MAX_DELTA_COUNT + 1),
            r == (self@.len() > 10),
    {
        too_many_deltas(self.segments.len())
    }
}

// ---------------------------------------------------------------------------
// Merging
// ---------------------------------------------------------------------------

/// Entries with their values as byte strings.
pub open spec fn plain(entries: Seq<(Seq<u8>, Vec<u8>)>) -> Seq<Pair> {
    entries.map_values(|e: (Seq<u8>, Vec<u8>)| (e.0, e.1@))
}

proof fn lemma_plain_put(entries: Seq<(Seq<u8>, Vec<u8>)>, key: Seq<u8>, value: Vec<u8>)
    ensures
        plain(put(entries, key, value)) == put(plain(entries), key, value@),
    decreases entries.len(),
{
    let p = plain(entries);
    if entries.len() == 0 || lex_less(key, entries[0].0) {
        assert(plain(put(entries, key, value)) =~= seq![(key, value@)] + p);
    } else {
        let rest = entries.drop_first();
        assert(plain(rest) =~= p.drop_first());
        if entries[0].0 == key {
            assert(plain(put(entries, key, value)) =~= seq![(key, value@)] + p.drop_first());
        } else {
            lemma_plain_put(rest, key, value);
            assert(plain(put(entries, key, value)) =~= seq![p[0]] + plain(put(rest, key, value)));
        }
    }
}

proof fn lemma_plain_without(entries: Seq<(Seq<u8>, Vec<u8>)>, key: Seq<u8>)
    ensures
        plain(without(entries, key)) == without(plain(entries), key),
    decreases entries.len(),
{
    let p = plain(entries);
    if entries.len() > 0 {
        let rest = entries.drop_first();
        assert(plain(rest) =~= p.drop_first());
        if entries[0].0 != key {
            lemma_plain_without(rest, key);
            assert(plain(without(entries, key)) =~= seq![p[0]] + plain(without(rest, key)));
        }
    }
}

/// Lays the entries of one layer over a map.
fn lay_over(map: &mut SortedMap<Vec<u8>>, entries: Vec<(Vec<u8>, Vec<u8>)>)
    ensures
        plain(final(map)@) == overlay(plain(old(map)@), pairs_view(entries@)),
{
    let ghost base = plain(map@);
    let ghost all = pairs_view(entries@);
    let mut i: usize = 0;
    assert(all.take(0) =~= Seq::empty());
    while i < entries.len()
        invariant
            i <= entries@.len(),
            all == pairs_view(entries@),
            plain(map@) == overlay(base, all.take(i as int)),
        decreases entries@.len() - i,
    {
        let key: &Vec<u8> = &entries[i].0;
        let value: &Vec<u8> = &entries[i].1;
        assert(all.take(i + 1).drop_last() =~= all.take(i as int));
        assert(all.take(i + 1).last() == (key@, value@));
        if is_tombstone(value.as_slice()) {
            proof {
                lemma_plain_without(map@, key@);
            }
            map.remove(key.as_slice());
        } else {
            let copied = vstd::slice::slice_to_vec(value.as_slice());
            proof {
                lemma_plain_put(map@, key@, copied);
            }
            map.insert(vstd::slice::slice_to_vec(key.as_slice()), copied);
        }
        i += 1;
    }
    assert(all.take(i as int) =~= all);
}

/// Merges the entries of segments, newest first. The newest value of a key stays; deleted keys go.
pub fn merge_entries(segments: &[SegmentReader]) -> (r: Result<SortedMap<Vec<u8>>, ReaderError>)
    ensures
        match r {
            Ok(map) => layers_of(segment_views(segments@)) matches Ok(layers) && plain(map@)
                == merged(layers),
            Err(e) => layers_of(segment_views(segments@)) == Err::<Seq<Seq<Pair>>, Fault>(e@),
        },
{
    let ghost views = segment_views(segments@);
    let ghost mut layers: Seq<Seq<Pair>> = Seq::empty();
    let mut map: SortedMap<Vec<u8>> = SortedMap::new();
    let mut i: usize = segments.len();
    assert(views.skip(i as int) =~= Seq::empty());
    assert(plain(map@) =~= Seq::empty());
    while i > 0
        invariant
            i <= segments@.len(),
            views == segment_views(segments@),
            layers_of(views.skip(i as int)) == Ok::<Seq<Seq<Pair>>, Fault>(layers),
            plain(map@) == merged(layers),
        decreases i,
    {
        let ghost rest = views.skip(i - 1);
        assert(rest[0] == segments@[i - 1]@);
        assert(rest.drop_first() =~= views.skip(i as int));
        match segments[i - 1].iter() {
            Err(e) => {
                proof {
                    lemma_fault_reaches(views, i - 1);
                }
                return Err(e);
            },
            Ok(entries) => {
                proof {
                    let more = seq![pairs_view(entries@)] + layers;
                    assert(more.drop_first() =~= layers);
                    layers = more;
                }
                lay_over(&mut map, entries);
            },
        }
        i -= 1;
    }
    assert(views.skip(0) =~= views);
    Ok(map)
}

/// A fault among the older segments is the fault of all.
proof fn lemma_fault_reaches(views: Seq<SegmentView>, i: int)
    requires
        0 <= i <= views.len(),
        layers_of(views.skip(i)) is Err,
    ensures
        layers_of(views) == layers_of(views.skip(i)),
    decreases i,
{
    if i == 0 {
        assert(views.skip(0) =~= views);
    } else {
        assert(views.skip(i - 1).drop_first() =~= views.skip(i));
        lemma_fault_reaches(views, i - 1);
    }
}

/// Writes merged entries as a segment. An empty merge is an error.
pub fn write_merged(map: &SortedMap<Vec<u8>>) -> (r: Result<Vec<u8>, ReaderError>)
    requires
        map@.len() <= u32::MAX,
    ensures
        match r {
            Ok(data) => {
                &&& map@.len() > 0
                &&& segment_written(data@, plain(map@), merge_options())
            },
            Err(e) => {
                &&& map@.len() == 0
                &&& e@ == Fault::FstError(
                    "merge finish error: "@ + WriterError::EmptySegment.text(),
                )
            },
        },
{
    let ghost all = plain(map@);
    let mut writer = SegmentWriter::new(
        SegmentWriterOptions { block_size: 65536, restart_interval: 16, enable_bloom: true },
    );
    let n: usize = map.len();
    let mut i: usize = 0;
    assert(all.take(0) =~= Seq::empty());
    while i < n
        invariant
            i <= n == map@.len(),
            n <= u32::MAX,
            ascending(map@),
            all == plain(map@),
            writer.wf(),
            writer.options() == merge_options(),
            writer.entries() == all.take(i as int),
        decreases n - i,
    {
        let (key, value) = map.entry(i);
        proof {
            assert(all[i as int] == (key@, value@));
            assert(all.take(i + 1) =~= all.take(i as int).push((key@, value@)));
            if i > 0 {
                assert(lex_less(map@[i - 1].0, map@[i as int].0));
                assert(all.take(i as int).last().0 == map@[i - 1].0);
            }
        }
        match writer.add(key.as_slice(), value.as_slice()) {
            Ok(_) => {},
            Err(e) => {
                return Err(
                    ReaderError::FstError(
                        String::from_str("merge write error: ").concat(e.message().as_str()),
                    ),
                );
            },
        }
        i += 1;
    }
    assert(all.take(i as int) =~= all);
    match writer.finish() {
        Ok(output) => Ok(output.data),
        Err(e) => Err(
            ReaderError::FstError(
                String::from_str("merge finish error: ").concat(e.message().as_str()),
            ),
        ),
    }
}

/// Merges segments, newest first, into one new base segment. The newest value of a key stays;
/// deleted keys go. The merged segment must not have more keys than the format can count.
pub fn merge_segments(segments: &[SegmentReader]) -> (r: Result<Vec<u8>, ReaderError>)
    requires
        layers_of(segment_views(segments@)) matches Ok(layers) ==> merged(layers).len()
            <= u32::MAX,
    ensures
        match layers_of(segment_views(segments@)) {
            Err(fault) => r matches Err(e) && e@ == fault,
            Ok(layers) => if merged(layers).len() == 0 {
                r matches Err(e) && e@ == Fault::FstError(
                    "merge finish error: "@ + WriterError::EmptySegment.text(),
                )
            } else {
                &&& r is Ok
                &&& segment_written(r->Ok_0@, merged(layers), merge_options())
            },
        },
{
    match merge_entries(segments) {
        Ok(map) => {
            assert(plain(map@).len() == map@.len());
            write_merged(&map)
        },
        Err(e) => Err(e),
    }
}

/// Merges segments as `merge_segments` does, or returns `None` if the merged segment would have
/// more keys than the format can count.
pub fn merge_segments_checked(segments: &[SegmentReader]) -> (r: Option<
    Result<Vec<u8>, ReaderError>,
>)
    ensures
        match layers_of(segment_views(segments@)) {
            Err(fault) => r matches Some(Err(e)) && e@ == fault,
            Ok(layers) => if merged(layers).len() > u32::MAX {
                r is None
            } else if merged(layers).len() == 0 {
                r matches Some(Err(e)) && e@ == Fault::FstError(
                    "merge finish error: "@ + WriterError::EmptySegment.text(),
                )
            } else {
                &&& r matches Some(Ok(data))
                &&& segment_written(data@, merged(layers), merge_options())
            },
        },
{
    match merge_entries(segments) {
        Ok(map) => {
            assert(plain(map@).len() == map@.len());
            if map.len() as u64 > u32::MAX as u64 {
                None
            } else {
                Some(write_merged(&map))
            }
        },
        Err(e) => Some(Err(e)),
    }
}

// ---------------------------------------------------------------------------
// Manifest
// ---------------------------------------------------------------------------

/// Manifest of a layered index.
#[derive(Debug, Clone)]
pub struct LayeredIndexManifest {
    /// The base segment.
    pub base: SegmentRef,
    /// The delta segments, newest first.
    pub deltas: Vec<SegmentRef>,
}

/// A segment in a manifest.
#[derive(Debug, Clone)]
pub struct SegmentRef {
    /// Where the segment is stored.
    pub path: String,
    /// Number of keys.
    pub key_count: u32,
    /// Size in bytes.
    pub size_bytes: u64,
    /// Generation number, ascending.
    pub generation: u64,
}

/// The sum of the key counts of segments.
pub open spec fn sum_keys(segments: Seq<SegmentRef>) -> nat
    decreases segments.len(),
{
    if segments.len() == 0 {
        0
    } else {
        sum_keys(segments.drop_last()) + segments.last().key_count as nat
    }
}

/// The sum of the sizes of segments.
pub open spec fn sum_sizes(segments: Seq<SegmentRef>) -> nat
    decreases segments.len(),
{
    if segments.len() == 0 {
        0
    } else {
        sum_sizes(segments.drop_last()) + segments.last().size_bytes as nat
    }
}

/// Key counts and sizes add up segment by segment.
pub proof fn law_sums(segments: Seq<SegmentRef>, more: Seq<SegmentRef>)
    ensures
        sum_keys(Seq::empty()) == 0,
        sum_sizes(Seq::empty()) == 0,
        segments.len() == 1 ==> sum_keys(segments) == segments[0].key_count,
        segments.len() == 1 ==> sum_sizes(segments) == segments[0].size_bytes,
        sum_keys(segments + more) == sum_keys(segments) + sum_keys(more),
        sum_sizes(segments + more) == sum_sizes(segments) + sum_sizes(more),
    decreases more.len(),
{
    if segments.len() == 1 {
        assert(segments.drop_last() =~= Seq::empty());
        assert(sum_keys(segments.drop_last()) == 0);
        assert(sum_sizes(segments.drop_last()) == 0);
    }
    if more.len() == 0 {
        assert(segments + more =~= segments);
    } else {
        assert((segments + more).drop_last() =~= segments + more.drop_last());
        law_sums(segments, more.drop_last());
    }
}

/// The sums over some segments are at most the sums over all.
proof fn lemma_sums_grow(segments: Seq<SegmentRef>, i: int)
    requires
        0 <= i <= segments.len(),
    ensures
        sum_keys(segments.take(i)) <= sum_keys(segments),
        sum_sizes(segments.take(i)) <= sum_sizes(segments),
    decreases segments.len(),
{
    if i == segments.len() {
        assert(segments.take(i) =~= segments);
    } else {
        lemma_sums_grow(segments.drop_last(), i);
        assert(segments.drop_last().take(i) =~= segments.take(i));
    }
}

/// Adds up the sizes of segments.
fn total_sizes(segments: &Vec<SegmentRef>) -> (sum: u64)
    requires
        sum_sizes(segments@) <= u64::MAX,
    ensures
        sum as nat == sum_sizes(segments@),
{
    let mut sum: u64 = 0;
    let mut i: usize = 0;
    assert(segments@.take(0) =~= Seq::empty());
    while i < segments.len()
        invariant
            i <= segments@.len(),
            sum as nat == sum_sizes(segments@.take(i as int)),
            sum_sizes(segments@) <= u64::MAX,
        decreases segments@.len() - i,
    {
        proof {
            assert(segments@.take(i + 1).drop_last() =~= segments@.take(i as int));
            lemma_sums_grow(segments@, i + 1);
        }
        sum = sum + segments[i].size_bytes;
        i += 1;
    }
    assert(segments@.take(i as int) =~= segments@);
    sum
}

impl LayeredIndexManifest {
    /// Sum of the key counts: an upper bound of the number of keys.
    pub fn total_keys_upper_bound(&self) -> (n: u64)
        requires
            self.base.key_count + sum_keys(self.deltas@) <= u64::MAX,
        ensures
            n as nat == self.base.key_count + sum_keys(self.deltas@),
    {
        let mut sum: u64 = self.base.key_count as u64;
        let mut i: usize = 0;
        assert(self.deltas@.take(0) =~= Seq::empty());
        while i < self.deltas.len()
            invariant
                i <= self.deltas@.len(),
                sum as nat == self.base.key_count + sum_keys(self.deltas@.take(i as int)),
                self.base.key_count + sum_keys(self.deltas@) <= u64::MAX,
            decreases self.deltas@.len() - i,
        {
            proof {
                assert(self.deltas@.take(i + 1).drop_last() =~= self.deltas@.take(i as int));
                lemma_sums_grow(self.deltas@, i + 1);
            }
            sum = sum + self.deltas[i].key_count as u64;
            i += 1;
        }
        assert(self.deltas@.take(i as int) =~= self.deltas@);
        sum
    }

    /// Total size in bytes.
    pub fn total_size_bytes(&self) -> (n: u64)
        requires
            self.base.size_bytes + sum_sizes(self.deltas@) <= u64::MAX,
        ensures
            n as nat == self.base.size_bytes + sum_sizes(self.deltas@),
    {
        self.base.size_bytes + total_sizes(&self.deltas)
    }

    /// Number of deltas.
    pub fn delta_count(&self) -> (n: usize)
        ensures
            n as nat == self.deltas@.len(),
    {
        self.deltas.len()
    }

    /// Whether a merge is recommended: there are too many deltas, or together they exceed 30 % of
    /// the size of the base. A base of no bytes counts as one byte.
    pub fn should_merge(&self) -> (r: bool)
        requires
            self.deltas@.len() < MAX_DELTA_COUNT ==> sum_sizes(self.deltas@) <= u64::MAX,
        ensures
            r == (self.deltas@.len() > 0 && (self.deltas@.len() >= MAX_DELTA_COUNT || 100
                * sum_sizes(self.deltas@) > MAX_DELTA_PERCENT * if self.base.size_bytes == 0 {
                1
            } else {
                self.base.size_bytes as int
            })),
            self.deltas@.len() == 0 ==> !r,
            self.deltas@.len() >= 10 ==> r,
            0 < self.deltas@.len() < 10 && self.base.size_bytes > 0 ==> (r <==> 10 * sum_sizes(
                self.deltas@,
            ) > 3 * self.base.size_bytes),
    {
        if self.deltas.len() == 0 {
            return false;
        }
        if self.deltas.len() >= MAX_DELTA_COUNT {
            return true;
        }
        let delta_size: u64 = total_sizes(&self.deltas);
        let base_size: u64 = if self.base.size_bytes == 0 {
            1
        } else {
            self.base.size_bytes
        };
        100 * delta_size as u128 > MAX_DELTA_PERCENT as u128 * base_size as u128
    }

    /// The paths of all segments, the base first.
    pub fn all_paths(&self) -> (paths: Vec<&str>)
        ensures
            paths@.len() == self.deltas@.len() + 1,
            paths@[0]@ == self.base.path@,
            forall|i: int|
                0 <= i < self.deltas@.len() ==> (#[trigger] paths@[i + 1])@
                    == self.deltas@[i].path@,
    {
        let mut paths: Vec<&str> = Vec::new();
        paths.push(self.base.path.as_str());
        let mut i: usize = 0;
        while i < self.deltas.len()
            invariant
                i <= self.deltas@.len(),
                paths@.len() == i + 1,
                paths@[0]@ == self.base.path@,
                forall|j: int|
                    0 <= j < i ==> (#[trigger] paths@[j + 1])@ == self.deltas@[j].path@,
            decreases self.deltas@.len() - i,
        {
            paths.push(self.deltas[i].path.as_str());
            i += 1;
        }
        paths
    }
}

} // verus!
