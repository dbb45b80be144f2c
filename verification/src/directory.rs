//! The directory of a segment: an ordered map from the last key of each block to the block's
//! offset, stored as a finite state transducer.

use vstd::arithmetic::power::pow;
use vstd::prelude::*;
use vstd::slice::slice_to_vec;
use crate::bytes::{
    law_le_digit, le_bytes, le_value, lemma_le_bounds, lemma_le_injective, lemma_le_round_trip,
    read_u64,
};
use crate::checksum::{law_crc32c_differs, masked_crc32c};
use crate::order::{ascending, find_at_least, lex_less};
use fst::{IntoStreamer, Streamer};

verus! {

/// A key of the directory and the offset under it.
pub type Slot = (Seq<u8>, u64);

// ---------------------------------------------------------------------------
// Outside functions
// ---------------------------------------------------------------------------

/// `fst::Map`, a transducer opened for reading.
#[verifier::external_type_specification]
#[verifier::external_body]
#[verifier::reject_recursive_types(D)]
pub struct ExFstMap<D>(fst::Map<D>);

/// `fst::MapBuilder`, a transducer being built.
#[verifier::external_type_specification]
#[verifier::external_body]
#[verifier::reject_recursive_types(W)]
pub struct ExFstMapBuilder<W>(fst::MapBuilder<W>);

/// The bytes that an opened transducer stands on.
pub uninterp spec fn fst_data(map: fst::Map<Vec<u8>>) -> Seq<u8>;

/// The entries inserted into a builder so far.
pub uninterp spec fn fst_inserted(builder: fst::MapBuilder<Vec<u8>>) -> Seq<(Seq<u8>, u64)>;

/// The bytes that a builder makes of ascending entries in the format of a version, on a machine
/// whose largest `usize` is `word`: which nodes are shared goes by a hash cut to that size. The
/// builder of `fst` 0.4 makes the third version; the first two are those of earlier releases.
pub uninterp spec fn fst_encoding(
    version: nat,
    word: nat,
    slots: Seq<(Seq<u8>, u64)>,
) -> Seq<u8>;

/// The entries that `fst::Map::stream` yields.
pub uninterp spec fn fst_entries(data: Seq<u8>) -> Seq<(Seq<u8>, u64)>;

/// The value of the first entry that `fst::Map::range` yields with a lower bound.
pub uninterp spec fn fst_at_least(data: Seq<u8>, key: Seq<u8>) -> Option<u64>;

/// The version number that a transducer begins with.
pub open spec fn fst_version(data: Seq<u8>) -> nat {
    le_value(data.subrange(0, 8))
}

/// Where the last two numbers of a transducer end: versions before the third store no checksum
/// behind them.
pub open spec fn fst_end(data: Seq<u8>) -> int {
    if fst_version(data) <= 2 {
        data.len() as int
    } else {
        data.len() - 4
    }
}

/// The root address that a transducer stores.
pub open spec fn fst_root(data: Seq<u8>) -> nat {
    le_value(data.subrange(fst_end(data) - 8, fst_end(data)))
}

/// The number of keys that a transducer stores.
pub open spec fn fst_count(data: Seq<u8>) -> nat {
    le_value(data.subrange(fst_end(data) - 16, fst_end(data) - 8))
}

/// There are enough bytes for a transducer, of a known version.
pub open spec fn fst_header(data: Seq<u8>) -> bool {
    data.len() >= 36 && 1 <= fst_version(data) <= 3
}

/// The numbers of a transducer, if it has any, can be held in memory.
pub open spec fn fst_addressable(data: Seq<u8>) -> bool {
    fst_header(data) ==> fst_root(data) <= usize::MAX && fst_count(data) <= usize::MAX
}

/// Whether `fst::Map::new` accepts bytes: a known version, and the root address 0 only where the
/// transducer is empty.
pub open spec fn fst_accepts(data: Seq<u8>) -> bool {
    fst_header(data) && (fst_root(data) == 0 ==> fst_version(data) == 3 && data.len() == 36)
}

/// The checksum that a transducer stores in its last four bytes, from the third version on, is that
/// of the bytes in front of it.
pub open spec fn fst_intact(data: Seq<u8>) -> bool {
    &&& fst_header(data)
    &&& fst_version(data) == 3
    &&& le_value(data.skip(data.len() - 4)) == masked_crc32c(data.take(data.len() - 4))
}

/// The bytes are those that a builder, of whatever version and on whatever machine, makes of some
/// ascending entries.
pub open spec fn built(data: Seq<u8>) -> bool {
    exists|version: nat, word: nat, slots: Seq<Slot>|
        1 <= version <= 3 && ascending(slots) && data == #[trigger] fst_encoding(
            version,
            word,
            slots,
        )
}

/// `fst::Map::new`: opens a transducer. Trusted: it accepts exactly the bytes that `fst_accepts`
/// describes, and keeps them; of a refusal its error says "FST error". Numbers that memory cannot
/// hold would make it panic.
#[verifier::external_body]
fn open_map(data: Vec<u8>) -> (r: Result<fst::Map<Vec<u8>>, String>)
    requires
        fst_addressable(data@),
    ensures
        match r {
            Ok(map) => fst_accepts(data@) && fst_data(map) == data@,
            Err(text) => !fst_accepts(data@) && text@ == "FST error"@,
        },
{
    fst::Map::new(data).map_err(|e| e.to_string())
}

/// `fst::raw::Fst::verify`: compares the stored checksum with that of the bytes. Trusted: it
/// succeeds exactly where `fst_intact` holds, the checksum being a masked CRC-32C; of a mismatch,
/// or where the format version stores no checksum, its error says "FST error".
#[verifier::external_body]
fn verify_map(map: &fst::Map<Vec<u8>>) -> (r: Result<(), String>)
    ensures
        match r {
            Ok(_) => fst_intact(fst_data(*map)),
            Err(text) => !fst_intact(fst_data(*map)) && text@ == "FST error"@,
        },
{
    map.as_fst().verify().map_err(|e| e.to_string())
}

/// `fst::Map::stream`: all entries in order of their keys. Trusted: they depend on the bytes
/// alone. All three format versions are read. Walking bytes that no builder made may panic or not
/// end, so those are not admitted.
#[verifier::external_body]
fn stream_map(map: &fst::Map<Vec<u8>>) -> (r: Vec<(Vec<u8>, u64)>)
    requires
        built(fst_data(*map)),
    ensures
        r@.map_values(|e: (Vec<u8>, u64)| (e.0@, e.1)) == fst_entries(fst_data(*map)),
{
    map.stream().into_byte_vec()
}

/// `fst::Map::range` with a lower bound: the value of the first entry at or after `key`. Trusted:
/// it depends on the bytes and the key alone. All three format versions are read. Walking bytes
/// that no builder made may panic or not end, so those are not admitted.
#[verifier::external_body]
fn seek_map(map: &fst::Map<Vec<u8>>, key: &[u8]) -> (r: Option<u64>)
    requires
        built(fst_data(*map)),
    ensures
        r == fst_at_least(fst_data(*map), key@),
{
    map.range().ge(key).into_stream().next().map(|(_, value)| value)
}

/// `fst::raw::Fst::as_bytes`: the bytes of a transducer. Trusted: they are those it was opened
/// from.
#[verifier::external_body]
fn map_bytes(map: &fst::Map<Vec<u8>>) -> (r: &[u8])
    ensures
        r@ == fst_data(*map),
{
    map.as_fst().as_bytes()
}

/// `fst::MapBuilder::memory`: a builder that writes to memory. Trusted: nothing is inserted yet.
#[verifier::external_body]
fn new_builder() -> (b: fst::MapBuilder<Vec<u8>>)
    ensures
        fst_inserted(b) == Seq::<(Seq<u8>, u64)>::empty(),
{
    fst::MapBuilder::memory()
}

/// `fst::MapBuilder::insert`: inserts an entry after all others. Trusted: the key must come
/// strictly after the one before it; otherwise nothing is inserted and the error says "FST
/// error". Writing to memory does not fail.
#[verifier::external_body]
fn insert_slot(b: &mut fst::MapBuilder<Vec<u8>>, key: &[u8], value: u64) -> (r: Result<(), String>)
    ensures
        r is Ok <==> fst_inserted(*old(b)).len() == 0 || lex_less(
            fst_inserted(*old(b)).last().0,
            key@,
        ),
        fst_inserted(*final(b)) == if r is Ok {
            fst_inserted(*old(b)).push((key@, value))
        } else {
            fst_inserted(*old(b))
        },
        r matches Err(text) ==> text@ == "FST error"@,
{
    b.insert(key, value).map_err(|e| e.to_string())
}

/// `fst::MapBuilder::into_inner`: the finished transducer. Trusted: its bytes are a function of
/// the entries inserted and the machine's word size, in the format of the third version;
/// `fst::Map::new` accepts them and their checksum matches; a stream gives the entries back, and a
/// range with a lower bound starts at the first of them that is not before the bound. Writing to
/// memory does not fail.
#[verifier::external_body]
fn finish_builder(b: fst::MapBuilder<Vec<u8>>) -> (r: Result<Vec<u8>, String>)
    ensures
        r is Ok,
        r->Ok_0@ == fst_encoding(3, usize::MAX as nat, fst_inserted(b)),
        fst_addressable(r->Ok_0@),
        fst_accepts(r->Ok_0@),
        fst_intact(r->Ok_0@),
        fst_entries(r->Ok_0@) == fst_inserted(b),
        forall|key: Seq<u8>| #[trigger]
            fst_at_least(r->Ok_0@, key) == find_at_least(fst_inserted(b), key),
{
    b.into_inner().map_err(|e| e.to_string())
}

// ---------------------------------------------------------------------------
// Directory
// ---------------------------------------------------------------------------

/// A transducer of the third version that matches its checksum.
pub open spec fn fst_sound(data: Seq<u8>) -> bool {
    fst_addressable(data) && fst_accepts(data) && fst_intact(data)
}

/// Whether bytes can be opened as a directory. A transducer of the third version must match its
/// checksum. One of an earlier version has none; but if it would match under the third version,
/// then its version number was damaged.
pub open spec fn directory_valid(data: Seq<u8>) -> bool {
    fst_sound(data) || (fst_addressable(data) && fst_accepts(data) && fst_version(data) <= 2
        && !fst_sound(data.update(0, 3)))
}

/// Bytes that can be opened as a directory are ones that a builder made. This leaves out only what
/// was forged together with its checksum, and damage to a transducer of an earlier version, which
/// has none.
pub open spec fn directory_genuine(data: Seq<u8>) -> bool {
    directory_valid(data) ==> built(data)
}

/// `data` is a directory with its checksum, and reading it gives `slots`.
pub open spec fn directory_holds(data: Seq<u8>, slots: Seq<Slot>) -> bool {
    &&& fst_sound(data)
    &&& fst_entries(data) == slots
    &&& forall|key: Seq<u8>| #[trigger] fst_at_least(data, key) == find_at_least(slots, key)
}

/// Which bytes are a directory. There are at least 36; the first eight are the version. In the
/// third version the last four are the masked CRC-32C of all others; the root address and the
/// number of keys stand before it, or in the first two versions at the end, and fit in memory; the
/// root address is 0 only in the third version and in 36 bytes. In the first two versions the bytes
/// must not be a directory of the third version but for the version number.
pub proof fn law_directory_valid(data: Seq<u8>)
    ensures
        ({
            let n = data.len() as int;
            let version = le_value(data.subrange(0, 8));
            &&& n < 36 ==> !directory_valid(data)
            &&& version < 1 || version > 3 ==> !directory_valid(data)
            &&& n >= 36 && version == 3 ==> (directory_valid(data) <==> {
                &&& le_value(data.subrange(n - 12, n - 4)) <= usize::MAX
                &&& le_value(data.subrange(n - 20, n - 12)) <= usize::MAX
                &&& le_value(data.subrange(n - 12, n - 4)) == 0 ==> n == 36
                &&& le_value(data.subrange(n - 4, n)) == masked_crc32c(data.take(n - 4))
            })
            &&& n >= 36 && 1 <= version <= 2 ==> (directory_valid(data) <==> {
                &&& 0 < le_value(data.subrange(n - 8, n)) <= usize::MAX
                &&& le_value(data.subrange(n - 16, n - 8)) <= usize::MAX
                &&& !directory_valid(data.update(0, 3))
            })
        }),
{
    let n = data.len() as int;
    let version = le_value(data.subrange(0, 8));
    if n >= 36 {
        assert(data.skip(n - 4) =~= data.subrange(n - 4, n));
        if 1 <= version <= 2 {
            let third = data.update(0, 3);
            lemma_le_bounds();
            lemma_le_round_trip(3, 8);
            lemma_le_round_trip(version, 8);
            lemma_le_injective(data.subrange(0, 8), le_bytes(version, 8));
            reveal_with_fuel(le_bytes, 9);
            assert(third.subrange(0, 8) =~= le_bytes(3, 8)) by {
                assert forall|i: int| 0 <= i < 8 implies third.subrange(0, 8)[i] == le_bytes(
                    3,
                    8,
                )[i] by {
                    if i > 0 {
                        assert(data.subrange(0, 8)[i] == le_bytes(version, 8)[i]);
                        law_le_digit(3, 8, i as nat);
                        law_le_digit(version, 8, i as nat);
                        lemma_small_digit(3, i as nat);
                        lemma_small_digit(version, i as nat);
                    }
                }
            }
        }
    }
}

/// A number below 256 has no digit but the first.
proof fn lemma_small_digit(n: nat, i: nat)
    requires
        n < 256,
        i > 0,
    ensures
        (n as int / pow(256, i)) % 256 == 0,
{
    vstd::arithmetic::power::lemma_pow_increases(256, 1, i);
    vstd::arithmetic::power::lemma_pow1(256);
    vstd::arithmetic::div_mod::lemma_basic_div(n as int, pow(256, i));
}

/// A directory of the version that is written, of which exactly one byte was changed, is refused.
pub proof fn law_directory_damage(data: Seq<u8>, i: int, b: u8)
    requires
        fst_sound(data),
        0 <= i < data.len(),
        b != data[i],
    ensures
        !directory_valid(data.update(i, b)),
{
    let other = data.update(i, b);
    let n = data.len() as int;
    if i < 8 {
        let (x, y) = (data.subrange(0, 8), other.subrange(0, 8));
        assert(x[i] != y[i]);
        if fst_version(other) == 3 {
            lemma_le_injective(x, y);
        }
        if 1 <= fst_version(other) <= 2 {
            let version = fst_version(other);
            lemma_le_bounds();
            lemma_le_round_trip(3, 8);
            lemma_le_round_trip(version, 8);
            lemma_le_injective(x, le_bytes(3, 8));
            lemma_le_injective(y, le_bytes(version, 8));
            assert(x[0] == 3 && y[0] == version);
            assert(data[0] == x[0] && other[0] == y[0]);
            assert(other.update(0, 3) =~= data);
        }
    } else {
        assert(other.subrange(0, 8) =~= data.subrange(0, 8));
        if i < n - 4 {
            assert(other.take(n - 4) =~= data.take(n - 4).update(i, b));
            assert(other.skip(n - 4) =~= data.skip(n - 4));
            law_crc32c_differs(data.take(n - 4), i, b);
        } else {
            assert(other.take(n - 4) =~= data.take(n - 4));
            let (x, y) = (data.skip(n - 4), other.skip(n - 4));
            assert(x[i - (n - 4)] != y[i - (n - 4)]);
            if le_value(x) == le_value(y) {
                lemma_le_injective(x, y);
            }
        }
    }
}

/// The slots of a list in memory.
pub open spec fn slots_view(slots: Seq<(Vec<u8>, u64)>) -> Seq<Slot> {
    slots.map_values(|e: (Vec<u8>, u64)| (e.0@, e.1))
}

/// Slots are those of the list, in order.
pub proof fn law_slots_view(slots: Seq<(Vec<u8>, u64)>)
    ensures
        slots_view(slots).len() == slots.len(),
        forall|i: int|
            0 <= i < slots.len() ==> #[trigger] slots_view(slots)[i] == (slots[i].0@, slots[i].1),
{
}

/// Whether the numbers of a transducer can be held in memory.
fn is_addressable(data: &[u8]) -> (r: bool)
    ensures
        r == fst_addressable(data@),
{
    if data.len() < 36 {
        return true;
    }
    let version: u64 = read_u64(data, 0);
    if version == 0 || version > 3 {
        return true;
    }
    let end: usize = if version <= 2 {
        data.len()
    } else {
        data.len() - 4
    };
    let root: u64 = read_u64(data, end - 8);
    let count: u64 = read_u64(data, end - 16);
    root <= usize::MAX as u64 && count <= usize::MAX as u64
}

/// The version number of a transducer; 0 if there are too few bytes for one.
fn leading_version(data: &[u8]) -> (version: u64)
    ensures
        version as nat == if data@.len() < 36 {
            0
        } else {
            fst_version(data@)
        },
{
    if data.len() < 36 {
        0
    } else {
        read_u64(data, 0)
    }
}

/// Whether bytes are a transducer of the third version that matches its checksum.
fn is_sound(data: Vec<u8>) -> (r: bool)
    ensures
        r == fst_sound(data@),
{
    if !is_addressable(data.as_slice()) {
        return false;
    }
    match open_map(data) {
        Ok(map) => verify_map(&map).is_ok(),
        Err(_) => false,
    }
}

/// A directory opened for reading, one that a builder made.
#[derive(Debug)]
pub struct Directory {
    map: fst::Map<Vec<u8>>,
}

impl View for Directory {
    type V = Seq<u8>;

    closed spec fn view(&self) -> Seq<u8> {
        fst_data(self.map)
    }
}

impl Directory {
    #[verifier::type_invariant]
    spec fn inv(self) -> bool {
        built(fst_data(self.map))
    }

    /// Opens a directory. Bytes that are no transducer, or that do not match their checksum, are
    /// refused. Bytes forged together with their checksum, or damaged ones of a version without
    /// checksum, must not be given.
    pub fn open(data: Vec<u8>) -> (r: Result<Directory, String>)
        requires
            directory_genuine(data@),
        ensures
            match r {
                Ok(d) => directory_valid(data@) && d@ == data@,
                Err(text) => !directory_valid(data@) && text@ == "FST error"@,
            },
    {
        if !is_addressable(data.as_slice()) {
            return Err(String::from_str("FST error"));
        }
        let version: u64 = leading_version(data.as_slice());
        if version == 1 || version == 2 {
            let mut third = slice_to_vec(data.as_slice());
            third.set(0, 3);
            if is_sound(third) {
                return Err(String::from_str("FST error"));
            }
            return match open_map(data) {
                Ok(map) => Ok(Directory { map }),
                Err(text) => Err(text),
            };
        }
        let map = match open_map(data) {
            Ok(map) => map,
            Err(text) => {
                return Err(text);
            },
        };
        match verify_map(&map) {
            Ok(_) => Ok(Directory { map }),
            Err(text) => Err(text),
        }
    }

    /// All slots in order.
    pub fn entries(&self) -> (r: Vec<(Vec<u8>, u64)>)
        ensures
            slots_view(r@) == fst_entries(self@),
    {
        proof {
            use_type_invariant(self);
        }
        stream_map(&self.map)
    }

    /// The value of the first slot whose key is not before `key`.
    pub fn at_least(&self, key: &[u8]) -> (r: Option<u64>)
        ensures
            r == fst_at_least(self@, key@),
    {
        proof {
            use_type_invariant(self);
        }
        seek_map(&self.map, key)
    }

    /// Size of the directory in bytes.
    pub fn size(&self) -> (n: usize)
        ensures
            n as nat == self@.len(),
    {
        map_bytes(&self.map).len()
    }

    /// Builds the bytes of a directory. Slots that are not in strictly ascending order are
    /// refused.
    pub fn build(slots: &Vec<(Vec<u8>, u64)>) -> (r: Result<Vec<u8>, String>)
        ensures
            match r {
                Ok(data) => {
                    &&& ascending(slots_view(slots@))
                    &&& data@ == fst_encoding(3, usize::MAX as nat, slots_view(slots@))
                    &&& directory_holds(data@, slots_view(slots@))
                    &&& built(data@)
                },
                Err(text) => !ascending(slots_view(slots@)) && text@ == "FST error"@,
            },
    {
        let ghost all = slots_view(slots@);
        let mut b = new_builder();
        let mut i: usize = 0;
        assert(all.take(0) =~= Seq::<Slot>::empty());
        while i < slots.len()
            invariant
                i <= slots@.len(),
                all == slots_view(slots@),
                fst_inserted(b) == all.take(i as int),
                ascending(all.take(i as int)),
            decreases slots@.len() - i,
        {
            let ghost before = all.take(i as int);
            let key: &Vec<u8> = &slots[i].0;
            assert(all[i as int] == (slots@[i as int].0@, slots@[i as int].1));
            assert(all.take(i + 1) =~= before.push(all[i as int]));
            match insert_slot(&mut b, key.as_slice(), slots[i].1) {
                Ok(_) => {},
                Err(text) => {
                    assert(!lex_less(all[i - 1].0, all[i as int].0));
                    return Err(text);
                },
            }
            proof {
                let longer = all.take(i + 1);
                assert forall|j: int, k: int| 0 <= j < k < longer.len() implies lex_less(
                    #[trigger] longer[j].0,
                    #[trigger] longer[k].0,
                ) by {
                    if k < i {
                        assert(longer[j] == before[j]);
                        assert(longer[k] == before[k]);
                    } else if j < i - 1 {
                        assert(longer[j] == before[j]);
                        assert(lex_less(before[j].0, before[i - 1].0));
                        crate::order::lemma_lex_transitive(
                            longer[j].0,
                            before[i - 1].0,
                            longer[k].0,
                        );
                    } else {
                        assert(longer[j] == before[i - 1]);
                    }
                }
            }
            i += 1;
        }
        assert(all.take(i as int) =~= all);
        finish_builder(b)
    }
}

} // verus!
