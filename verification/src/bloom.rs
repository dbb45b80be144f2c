//! Membership filter: tells keys that are certainly absent without reading a block.
//!
//! The filter is an XOR filter over the 64-bit hashes of the keys, with 8-bit fingerprints. It
//! never rejects a key it was built from; of other keys it lets about 0.4 % through.
//!
//! ```text
//! seed: u64
//! block length: u64
//! fingerprints: three blocks of that many bytes
//! ```

use vstd::prelude::*;
use vstd::slice::{slice_subrange, slice_to_vec};
use std::collections::HashSet;
use crate::bytes::{
    append_slice, append_u64, le_bytes, le_value, lemma_le_bounds, lemma_le_round_trip, read_u64,
};
use xorf::Filter;

verus! {

broadcast use vstd::std_specs::hash::group_hash_axioms;

/// The largest block length with which no index computation inside a filter leaves 64 bits.
pub const MAX_BLOCK_LENGTH: u64 = 0x1_0000_0001;

/// The largest number of keys of which a filter has blocks no longer than that.
pub const MAX_FILTER_KEYS: u64 = 10_475_529_969;

// ---------------------------------------------------------------------------
// Outside functions
// ---------------------------------------------------------------------------

/// The hash that `xxhash_rust::xxh3::xxh3_64` computes of `data`.
pub uninterp spec fn xxh3(data: Seq<u8>) -> u64;

/// What `xorf::Xor8::from` builds from distinct hashes: seed, block length and fingerprints.
pub uninterp spec fn xor8_of(hashes: Seq<u64>) -> (u64, nat, Seq<u8>);

/// What `xorf::Xor8::contains` answers for a hash.
pub uninterp spec fn xor8_contains(
    seed: u64,
    block_length: nat,
    fingerprints: Seq<u8>,
    hash: u64,
) -> bool;

/// An XOR filter in plain values.
pub struct XorFilter {
    pub seed: u64,
    pub block_length: usize,
    pub fingerprints: Vec<u8>,
}

impl XorFilter {
    /// There are three blocks of fingerprints, neither empty nor too long to index.
    pub open spec fn wf(&self) -> bool {
        &&& 1 <= self.block_length <= MAX_BLOCK_LENGTH
        &&& self.fingerprints@.len() == 3 * self.block_length
    }
}

/// `xxhash_rust::xxh3::xxh3_64`: the 64-bit XXH3 hash of a byte slice, unseeded. Trusted: it
/// returns `xxh3(data@)`, the same number for the same bytes on every machine.
#[verifier::external_body]
fn hash_key(data: &[u8]) -> (h: u64)
    ensures
        h == xxh3(data@),
{
    xxhash_rust::xxh3::xxh3_64(data)
}

/// `xorf::Xor8::from`: builds a filter from distinct hashes. Trusted: the construction starts
/// from a fixed seed, so the filter is the function `xor8_of` of the hashes; it has three equally
/// long blocks of at least ten fingerprints; and it contains every hash it was built from.
/// Repeated hashes would keep the construction from ending, and past `MAX_FILTER_KEYS` hashes an
/// index computation would overflow, so neither is admitted.
#[verifier::external_body]
fn build_xor8(hashes: &Vec<u64>) -> (f: XorFilter)
    requires
        hashes@.no_duplicates(),
        hashes@.len() <= MAX_FILTER_KEYS,
    ensures
        (f.seed, f.block_length as nat, f.fingerprints@) == xor8_of(hashes@),
        f.wf(),
        forall|i: int|
            0 <= i < hashes@.len() ==> xor8_contains(
                f.seed,
                f.block_length as nat,
                f.fingerprints@,
                #[trigger] hashes@[i],
            ),
{
    let filter = xorf::Xor8::from(hashes);
    XorFilter {
        seed: filter.seed,
        block_length: filter.block_length,
        fingerprints: filter.fingerprints.into_vec(),
    }
}

/// `xorf::Xor8::contains`: whether a filter lets a hash through. Trusted: the answer is the
/// function `xor8_contains` of the filter's three parts and the hash. A filter with an empty or
/// overlong block, or with too few fingerprints, would be indexed out of bounds and is not
/// admitted.
#[verifier::external_body]
fn check_xor8(f: XorFilter, hash: u64) -> (r: bool)
    requires
        f.wf(),
    ensures
        r == xor8_contains(f.seed, f.block_length as nat, f.fingerprints@, hash),
{
    let filter = xorf::Xor8 {
        seed: f.seed,
        block_length: f.block_length,
        fingerprints: f.fingerprints.into_boxed_slice(),
    };
    filter.contains(&hash)
}

// ---------------------------------------------------------------------------
// Stored form
// ---------------------------------------------------------------------------

/// A filter as stored.
pub open spec fn filter_bytes(seed: u64, block_length: nat, fingerprints: Seq<u8>) -> Seq<u8> {
    le_bytes(seed as nat, 8) + le_bytes(block_length, 8) + fingerprints
}

/// The filter that stored bytes hold: seed, block length and fingerprints. None if there are too
/// few bytes or the block length makes no sense.
pub open spec fn parse_filter(data: Seq<u8>) -> Option<(u64, nat, Seq<u8>)> {
    let block_length = le_value(data.subrange(8, 16));
    if data.len() < 16 || block_length == 0 || block_length > MAX_BLOCK_LENGTH || 16 + 3
        * block_length > data.len() {
        None
    } else {
        Some(
            (
                le_value(data.subrange(0, 8)) as u64,
                block_length,
                data.subrange(16, 16 + 3 * block_length as int),
            ),
        )
    }
}

/// Whether a stored filter lets a key through. Bytes that hold no filter let every key through.
pub open spec fn filter_admits(data: Seq<u8>, key: Seq<u8>) -> bool {
    match parse_filter(data) {
        None => true,
        Some((seed, block_length, fingerprints)) => xor8_contains(
            seed,
            block_length,
            fingerprints,
            xxh3(key),
        ),
    }
}

/// The elements of `s` without repetitions, in order of first occurrence.
pub open spec fn distinct(s: Seq<u64>) -> Seq<u64>
    decreases s.len(),
{
    if s.len() == 0 {
        s
    } else if distinct(s.drop_last()).contains(s.last()) {
        distinct(s.drop_last())
    } else {
        distinct(s.drop_last()).push(s.last())
    }
}

/// The hashes of keys.
pub open spec fn hashes_of(keys: Seq<Seq<u8>>) -> Seq<u64> {
    keys.map_values(|k: Seq<u8>| xxh3(k))
}

/// The stored filter of keys. No keys, no bytes.
pub open spec fn filter_of(keys: Seq<Seq<u8>>) -> Seq<u8> {
    if keys.len() == 0 {
        Seq::empty()
    } else {
        let (seed, block_length, fingerprints) = xor8_of(distinct(hashes_of(keys)));
        filter_bytes(seed, block_length, fingerprints)
    }
}

/// Leaving out repetitions keeps every element, once.
pub proof fn lemma_distinct(s: Seq<u64>)
    ensures
        distinct(s).no_duplicates(),
        distinct(s).len() <= s.len(),
        forall|x: u64| distinct(s).contains(x) <==> s.contains(x),
    decreases s.len(),
{
    if s.len() > 0 {
        let head = s.drop_last();
        lemma_distinct(head);
        assert(s =~= head.push(s.last()));
        assert forall|x: u64| distinct(s).contains(x) <==> s.contains(x) by {
            if s.contains(x) {
                let i = choose|i: int| 0 <= i < s.len() && s[i] == x;
                if i < head.len() {
                    assert(head[i] == x);
                    assert(head.contains(x));
                }
                if distinct(head).contains(x) {
                    let j = choose|j: int| 0 <= j < distinct(head).len() && distinct(head)[j] == x;
                    assert(distinct(s)[j] == x);
                } else {
                    assert(x == s.last());
                    assert(distinct(s)[distinct(s).len() - 1] == x);
                }
            }
            if distinct(s).contains(x) {
                let j = choose|j: int| 0 <= j < distinct(s).len() && distinct(s)[j] == x;
                if j < distinct(head).len() {
                    assert(distinct(head)[j] == x);
                    assert(head.contains(x));
                    let i = choose|i: int| 0 <= i < head.len() && head[i] == x;
                    assert(s[i] == x);
                } else {
                    assert(s[s.len() - 1] == x);
                }
            }
        }
    }
}

/// A list without repetitions stays as it is.
pub proof fn lemma_distinct_identity(s: Seq<u64>)
    requires
        s.no_duplicates(),
    ensures
        distinct(s) == s,
    decreases s.len(),
{
    if s.len() > 0 {
        lemma_distinct_identity(s.drop_last());
        assert(s =~= s.drop_last().push(s.last()));
    }
}

/// A stored filter is read back.
pub proof fn lemma_filter_round_trip(seed: u64, block_length: nat, fingerprints: Seq<u8>)
    requires
        1 <= block_length <= MAX_BLOCK_LENGTH,
        fingerprints.len() == 3 * block_length,
    ensures
        parse_filter(filter_bytes(seed, block_length, fingerprints)) == Some(
            (seed, block_length, fingerprints),
        ),
{
    let data = filter_bytes(seed, block_length, fingerprints);
    lemma_le_bounds();
    lemma_le_round_trip(seed as nat, 8);
    lemma_le_round_trip(block_length, 8);
    assert(data.subrange(0, 8) =~= le_bytes(seed as nat, 8));
    assert(data.subrange(8, 16) =~= le_bytes(block_length, 8));
    assert(data.subrange(16, 16 + 3 * block_length as int) =~= fingerprints);
}

/// What a stored filter answers is what the XOR filter in it answers for the hash of the key,
/// whatever the key. The filter is in the bytes if they are 16 and more, and the block length in
/// the second eight is neither 0 nor too long to index nor too long for the bytes behind; else
/// every key is let through.
pub proof fn law_filter_answers(data: Seq<u8>, key: Seq<u8>)
    ensures
        ({
            let block_length = le_value(data.subrange(8, 16));
            filter_admits(data, key) == if data.len() >= 16 && 1 <= block_length <= 0x1_0000_0001
                && data.len() >= 16 + 3 * block_length {
                xor8_contains(
                    le_value(data.subrange(0, 8)) as u64,
                    block_length,
                    data.subrange(16, 16 + 3 * block_length as int),
                    xxh3(key),
                )
            } else {
                true
            }
        }),
{
}

/// A filter that was stored answers for every key what it answered before it was stored; bytes
/// behind it do not matter.
pub proof fn law_stored_filter_answers(
    seed: u64,
    block_length: nat,
    fingerprints: Seq<u8>,
    after: Seq<u8>,
    key: Seq<u8>,
)
    requires
        1 <= block_length <= 0x1_0000_0001,
        fingerprints.len() == 3 * block_length,
    ensures
        filter_admits(filter_bytes(seed, block_length, fingerprints) + after, key)
            == xor8_contains(seed, block_length, fingerprints, xxh3(key)),
        filter_admits(filter_bytes(seed, block_length, fingerprints), key) == xor8_contains(
            seed,
            block_length,
            fingerprints,
            xxh3(key),
        ),
{
    lemma_filter_round_trip(seed, block_length, fingerprints);
    let bytes = filter_bytes(seed, block_length, fingerprints);
    let data = bytes + after;
    lemma_le_bounds();
    lemma_le_round_trip(seed as nat, 8);
    lemma_le_round_trip(block_length, 8);
    assert(data.subrange(0, 8) =~= le_bytes(seed as nat, 8));
    assert(data.subrange(8, 16) =~= le_bytes(block_length, 8));
    assert(data.subrange(16, 16 + 3 * block_length as int) =~= fingerprints);
}

/// The filter of keys is the XOR filter of their hashes, each once, in order of first occurrence:
/// seed and block length in eight bytes each, then the fingerprints. No keys, no bytes.
pub proof fn law_filter_of(keys: Seq<Seq<u8>>)
    ensures
        keys.len() == 0 ==> filter_of(keys) == Seq::<u8>::empty(),
        keys.len() > 0 ==> {
            let (seed, block_length, fingerprints) = xor8_of(
                distinct(Seq::new(keys.len(), |i: int| xxh3(keys[i]))),
            );
            filter_of(keys) == le_bytes(seed as nat, 8) + le_bytes(block_length, 8) + fingerprints
        },
{
    assert(hashes_of(keys) =~= Seq::new(keys.len(), |i: int| xxh3(keys[i])));
}

/// Repetitions are left out one by one: an element stays exactly if it did not occur before.
pub proof fn law_distinct(s: Seq<u64>, x: u64)
    ensures
        distinct(Seq::empty()) == Seq::<u64>::empty(),
        distinct(s.push(x)) == if s.contains(x) {
            distinct(s)
        } else {
            distinct(s).push(x)
        },
{
    assert(s.push(x).drop_last() =~= s);
    lemma_distinct(s);
    assert(distinct(s).contains(x) <==> s.contains(x));
}

/// Leaves out repetitions.
fn distinct_hashes(hashes: &Vec<u64>) -> (out: Vec<u64>)
    ensures
        out@ == distinct(hashes@),
{
    let mut out: Vec<u64> = Vec::with_capacity(hashes.len());
    let mut seen: HashSet<u64> = HashSet::new();
    let mut i: usize = 0;
    while i < hashes.len()
        invariant
            i <= hashes@.len(),
            out@ == distinct(hashes@.take(i as int)),
            forall|x: u64| seen@.contains(x) <==> out@.contains(x),
        decreases hashes@.len() - i,
    {
        let h: u64 = hashes[i];
        proof {
            let longer = hashes@.take(i + 1);
            assert(longer.drop_last() =~= hashes@.take(i as int));
            assert(longer.last() == h);
        }
        let ghost before = out@;
        if seen.insert(h) {
            out.push(h);
            assert forall|x: u64| seen@.contains(x) <==> out@.contains(x) by {
                if out@.contains(x) {
                    let j = choose|j: int| 0 <= j < out@.len() && out@[j] == x;
                    if j < before.len() {
                        assert(before[j] == x);
                    }
                }
                if seen@.contains(x) {
                    if x == h {
                        assert(out@[before.len() as int] == x);
                    } else {
                        let j = choose|j: int| 0 <= j < before.len() && before[j] == x;
                        assert(out@[j] == x);
                    }
                }
            }
        }
        i += 1;
    }
    assert(hashes@.take(i as int) =~= hashes@);
    out
}

/// Builds the stored filter of a set of keys. It lets every one of them through.
pub fn build_filter(keys: &[&[u8]]) -> (out: Vec<u8>)
    requires
        keys@.len() <= MAX_FILTER_KEYS,
    ensures
        out@ == filter_of(keys@.map_values(|k: &[u8]| k@)),
        forall|i: int| 0 <= i < keys@.len() ==> filter_admits(out@, (#[trigger] keys@[i])@),
        forall|key: Seq<u8>| #[trigger]
            filter_admits(out@, key) == (keys@.len() == 0 || {
                let (seed, block_length, fingerprints) = xor8_of(
                    distinct(Seq::new(keys@.len(), |i: int| xxh3(keys@[i]@))),
                );
                xor8_contains(seed, block_length, fingerprints, xxh3(key))
            }),
{
    let ghost views = keys@.map_values(|k: &[u8]| k@);
    if keys.len() == 0 {
        return Vec::new();
    }
    let mut hashes: Vec<u64> = Vec::with_capacity(keys.len());
    let mut i: usize = 0;
    while i < keys.len()
        invariant
            i <= keys@.len(),
            hashes@.len() == i,
            forall|j: int| 0 <= j < i ==> #[trigger] hashes@[j] == xxh3(keys@[j]@),
        decreases keys@.len() - i,
    {
        hashes.push(hash_key(keys[i]));
        i += 1;
    }
    assert(hashes@ =~= hashes_of(views));
    assert(hashes@ =~= Seq::new(keys@.len(), |i: int| xxh3(keys@[i]@)));
    proof {
        lemma_distinct(hashes@);
    }
    let unique = distinct_hashes(&hashes);
    let filter = build_xor8(&unique);
    let out = serialize_xor8(&filter);
    proof {
        lemma_filter_round_trip(filter.seed, filter.block_length as nat, filter.fingerprints@);
        assert forall|j: int| 0 <= j < keys@.len() implies filter_admits(
            out@,
            (#[trigger] keys@[j])@,
        ) by {
            assert(hashes@.contains(hashes@[j]));
            assert(unique@.contains(hashes@[j]));
            let k = choose|k: int| 0 <= k < unique@.len() && unique@[k] == hashes@[j];
            assert(xor8_contains(
                filter.seed,
                filter.block_length as nat,
                filter.fingerprints@,
                unique@[k],
            ));
        }
    }
    out
}

/// Whether a stored filter lets a key through. `false` means that the key is certainly absent.
/// Without a filter, or with a damaged one, the answer is `true`.
pub fn might_contain(filter_bytes: &[u8], key: &[u8]) -> (r: bool)
    ensures
        r == filter_admits(filter_bytes@, key@),
        ({
            let data = filter_bytes@;
            let block_length = le_value(data.subrange(8, 16));
            r == if data.len() >= 16 && 1 <= block_length <= 0x1_0000_0001 && data.len() >= 16 + 3
                * block_length {
                xor8_contains(
                    le_value(data.subrange(0, 8)) as u64,
                    block_length,
                    data.subrange(16, 16 + 3 * block_length as int),
                    xxh3(key@),
                )
            } else {
                true
            }
        }),
{
    match deserialize_xor8(filter_bytes) {
        None => true,
        Some(filter) => check_xor8(filter, hash_key(key)),
    }
}

/// Stores a filter.
fn serialize_xor8(filter: &XorFilter) -> (out: Vec<u8>)
    requires
        filter.wf(),
    ensures
        out@ == filter_bytes(filter.seed, filter.block_length as nat, filter.fingerprints@),
{
    let block_length: usize = filter.fingerprints.len() / 3;
    let mut out: Vec<u8> = Vec::new();
    append_u64(&mut out, filter.seed);
    append_u64(&mut out, block_length as u64);
    append_slice(&mut out, filter.fingerprints.as_slice());
    assert(out@ =~= filter_bytes(
        filter.seed,
        filter.block_length as nat,
        filter.fingerprints@,
    ));
    out
}

/// Reads a stored filter.
fn deserialize_xor8(data: &[u8]) -> (r: Option<XorFilter>)
    ensures
        match r {
            Some(f) => f.wf() && parse_filter(data@) == Some(
                (f.seed, f.block_length as nat, f.fingerprints@),
            ),
            None => parse_filter(data@) is None,
        },
{
    if data.len() < 16 {
        return None;
    }
    let seed: u64 = read_u64(data, 0);
    let block_length: u64 = read_u64(data, 8);
    if block_length == 0 || block_length > MAX_BLOCK_LENGTH || 3 * block_length > (data.len() - 16)
        as u64 {
        return None;
    }
    let end: usize = (16 + 3 * block_length) as usize;
    Some(
        XorFilter {
            seed,
            block_length: block_length as usize,
            fingerprints: slice_to_vec(slice_subrange(data, 16, end)),
        },
    )
}

} // verus!
