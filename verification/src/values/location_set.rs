//! Several locations under one key.
//!
//! ```text
//! count:   u32
//! entries: count locations, one behind another
//! ```
//!
//! All numbers are little-endian.

use vstd::prelude::*;
use crate::block_model::len32;
use crate::bytes::{
    append_u32, le_bytes, le_value, lemma_le_bounds, lemma_le_of_value, lemma_le_round_trip,
    read_u32,
};
use crate::values::entity_location::{
    append_location, law_read_location, lemma_location_cut, lemma_location_round_trip,
    location_bytes, read_location, take_location, EntityLocation, Location, ValueDecodeError,
};
use crate::values::field::field_fits;

verus! {

/// The locations of a key.
#[derive(Debug, Clone, PartialEq, Eq)]
pub struct LocationSet {
    pub locations: Vec<EntityLocation>,
}

/// The locations of a list in memory.
pub open spec fn locations_view(locations: Seq<EntityLocation>) -> Seq<Location> {
    locations.map_values(|l: EntityLocation| l@)
}

impl View for LocationSet {
    type V = Seq<Location>;

    open spec fn view(&self) -> Seq<Location> {
        locations_view(self.locations@)
    }
}

/// The bytes of locations, one behind another.
pub open spec fn locations_bytes(locations: Seq<Location>) -> Seq<u8>
    decreases locations.len(),
{
    if locations.len() == 0 {
        Seq::empty()
    } else {
        location_bytes(locations[0]) + locations_bytes(locations.drop_first())
    }
}

/// The bytes of a location set.
pub open spec fn set_bytes(locations: Seq<Location>) -> Seq<u8> {
    le_bytes(len32(locations.len()), 4) + locations_bytes(locations)
}

/// Reads `n` locations from `pos` on.
pub open spec fn read_locations(data: Seq<u8>, pos: nat, n: nat) -> Result<
    Seq<Location>,
    ValueDecodeError,
>
    decreases n,
{
    if n == 0 {
        Ok(Seq::empty())
    } else {
        match read_location(data, pos) {
            Err(e) => Err(e),
            Ok((l, at)) => match read_locations(data, at, (n - 1) as nat) {
                Err(e) => Err(e),
                Ok(rest) => Ok(seq![l] + rest),
            },
        }
    }
}

/// Reads a location set.
pub open spec fn read_set(data: Seq<u8>) -> Result<Seq<Location>, ValueDecodeError> {
    if data.len() < 4 {
        Err(ValueDecodeError::TooShort)
    } else {
        read_locations(data, 4, le_value(data.subrange(0, 4)))
    }
}

/// Every file key is short enough for its length to be stored, and so are the locations.
pub open spec fn set_fits(locations: Seq<Location>) -> bool {
    &&& locations.len() < 0x1_0000_0000
    &&& forall|i: int| 0 <= i < locations.len() ==> field_fits((#[trigger] locations[i]).file_key)
}

/// Appending a location appends its bytes.
proof fn lemma_push_location(locations: Seq<Location>, l: Location)
    ensures
        locations_bytes(locations.push(l)) == locations_bytes(locations) + location_bytes(l),
    decreases locations.len(),
{
    let more = locations.push(l);
    if locations.len() == 0 {
        assert(more.drop_first() =~= Seq::empty());
        assert(locations_bytes(more.drop_first()) =~= Seq::empty());
        assert(locations_bytes(more) =~= locations_bytes(locations) + location_bytes(l));
    } else {
        lemma_push_location(locations.drop_first(), l);
        assert(more.drop_first() =~= locations.drop_first().push(l));
        assert(locations_bytes(more) =~= locations_bytes(locations) + location_bytes(l));
    }
}

/// Locations are read back wherever they stand.
proof fn lemma_locations_round_trip(before: Seq<u8>, locations: Seq<Location>, after: Seq<u8>)
    requires
        forall|i: int|
            0 <= i < locations.len() ==> field_fits((#[trigger] locations[i]).file_key),
    ensures
        read_locations(
            before + locations_bytes(locations) + after,
            before.len(),
            locations.len(),
        ) == Ok::<Seq<Location>, ValueDecodeError>(locations),
    decreases locations.len(),
{
    if locations.len() > 0 {
        let l = locations[0];
        let rest = locations.drop_first();
        let data = before + locations_bytes(locations) + after;
        let here = before + location_bytes(l);
        assert forall|i: int| 0 <= i < rest.len() implies field_fits(
            (#[trigger] rest[i]).file_key,
        ) by {
            assert(rest[i] == locations[i + 1]);
        }
        lemma_location_round_trip(before, l, locations_bytes(rest) + after);
        assert(data =~= here + (locations_bytes(rest) + after));
        lemma_locations_round_trip(here, rest, after);
        assert(data =~= here + locations_bytes(rest) + after);
        assert(seq![l] + rest =~= locations);
    } else {
        assert(locations =~= Seq::empty());
    }
}

/// Locations of which the end is cut off are too short.
proof fn lemma_locations_cut(
    before: Seq<u8>,
    locations: Seq<Location>,
    after: Seq<u8>,
    cut: int,
)
    requires
        forall|i: int|
            0 <= i < locations.len() ==> field_fits((#[trigger] locations[i]).file_key),
        before.len() <= cut < before.len() + locations_bytes(locations).len(),
    ensures
        read_locations(
            (before + locations_bytes(locations) + after).take(cut),
            before.len(),
            locations.len(),
        ) == Err::<Seq<Location>, ValueDecodeError>(ValueDecodeError::TooShort),
    decreases locations.len(),
{
    let l = locations[0];
    let rest = locations.drop_first();
    let data = before + locations_bytes(locations) + after;
    let here = before + location_bytes(l);
    assert forall|i: int| 0 <= i < rest.len() implies field_fits(
        (#[trigger] rest[i]).file_key,
    ) by {
        assert(rest[i] == locations[i + 1]);
    }
    let behind = locations_bytes(rest) + after;
    assert(data =~= here + behind);
    if cut < here.len() {
        lemma_location_cut(before, l, behind, cut);
    } else {
        lemma_location_round_trip(before, l, behind.take(cut - here.len()));
        assert(data.take(cut) =~= here + behind.take(cut - here.len()));
        lemma_locations_cut(here, rest, after, cut);
        assert(data =~= here + locations_bytes(rest) + after);
    }
}

/// Decoding an encoded location set gives it back, if its lengths can be stored. What follows the
/// encoding does not matter.
pub proof fn law_set_round_trip(locations: Seq<Location>, after: Seq<u8>)
    requires
        set_fits(locations),
    ensures
        read_set(set_bytes(locations) + after) == Ok::<Seq<Location>, ValueDecodeError>(
            locations,
        ),
{
    let head = le_bytes(locations.len(), 4);
    let data = set_bytes(locations) + after;
    lemma_le_bounds();
    lemma_le_round_trip(locations.len(), 4);
    lemma_locations_round_trip(head, locations, after);
    assert(data.subrange(0, 4) =~= head);
    assert(data =~= head + locations_bytes(locations) + after);
}

/// An encoded location set without its end is too short, wherever it is cut.
pub proof fn law_set_cut(locations: Seq<Location>, cut: nat)
    requires
        set_fits(locations),
        cut < set_bytes(locations).len(),
    ensures
        read_set(set_bytes(locations).take(cut as int)) == Err::<Seq<Location>, ValueDecodeError>(
            ValueDecodeError::TooShort,
        ),
{
    let head = le_bytes(locations.len(), 4);
    let none = Seq::<u8>::empty();
    let data = set_bytes(locations).take(cut as int);
    lemma_le_bounds();
    lemma_le_round_trip(locations.len(), 4);
    if cut >= 4 {
        assert(data.subrange(0, 4) =~= head);
        assert(set_bytes(locations) =~= head + locations_bytes(locations) + none);
        lemma_locations_cut(head, locations, none, cut as int);
    }
}

/// Encoded locations stand one behind another, behind their number in four bytes.
pub proof fn law_set_bytes(locations: Seq<Location>, more: Seq<Location>)
    ensures
        set_bytes(locations) == le_bytes(locations.len() % 0x1_0000_0000, 4) + locations_bytes(
            locations,
        ),
        locations_bytes(Seq::empty()) == Seq::<u8>::empty(),
        locations.len() == 1 ==> locations_bytes(locations) == location_bytes(locations[0]),
        locations_bytes(locations + more) == locations_bytes(locations) + locations_bytes(more),
    decreases locations.len(),
{
    if locations.len() == 0 {
        assert(locations + more =~= more);
        assert(locations_bytes(locations) + locations_bytes(more) =~= locations_bytes(more));
    } else {
        let rest = locations.drop_first();
        law_set_bytes(rest, more);
        assert((locations + more).drop_first() =~= rest + more);
        assert(locations_bytes(locations + more) =~= locations_bytes(locations) + locations_bytes(
            more,
        ));
        if locations.len() == 1 {
            assert(rest =~= Seq::empty());
            assert(locations_bytes(locations) =~= location_bytes(locations[0]));
        }
    }
}

/// What is decoded as a set is one: its bytes come first. It is refused if its number is cut off,
/// or for the reason for which the first of its locations that cannot be read is refused.
pub proof fn law_read_set(data: Seq<u8>)
    ensures
        match read_set(data) {
            Ok(locations) => {
                &&& set_fits(locations)
                &&& set_bytes(locations).len() <= data.len()
                &&& data.take(set_bytes(locations).len() as int) == set_bytes(locations)
            },
            Err(e) => data.len() < 4 && e is TooShort || exists|before: Seq<Location>|
                {
                    &&& before.len() < le_value(data.subrange(0, 4))
                    &&& 4 + locations_bytes(before).len() <= data.len()
                    &&& data.subrange(4, (4 + locations_bytes(before).len()) as int)
                        == locations_bytes(before)
                    &&& #[trigger] read_location(data, 4 + locations_bytes(before).len()) == Err::<
                        (Location, nat),
                        ValueDecodeError,
                    >(e)
                },
        },
{
    if data.len() >= 4 {
        let head = data.subrange(0, 4);
        lemma_le_bounds();
        lemma_le_of_value(head);
        lemma_read_locations(data, 4, le_value(head));
        if let Ok(locations) = read_set(data) {
            let bytes = locations_bytes(locations);
            assert(data.take(set_bytes(locations).len() as int) =~= head + data.subrange(
                4,
                (4 + bytes.len()) as int,
            ));
        }
    }
}

proof fn lemma_read_locations(data: Seq<u8>, pos: nat, n: nat)
    requires
        pos <= data.len(),
    ensures
        match read_locations(data, pos, n) {
            Ok(locations) => {
                &&& locations.len() == n
                &&& forall|i: int|
                    0 <= i < locations.len() ==> field_fits((#[trigger] locations[i]).file_key)
                &&& pos + locations_bytes(locations).len() <= data.len()
                &&& data.subrange(pos as int, (pos + locations_bytes(locations).len()) as int)
                    == locations_bytes(locations)
            },
            Err(e) => exists|before: Seq<Location>|
                {
                    &&& before.len() < n
                    &&& pos + locations_bytes(before).len() <= data.len()
                    &&& data.subrange(pos as int, (pos + locations_bytes(before).len()) as int)
                        == locations_bytes(before)
                    &&& #[trigger] read_location(data, pos + locations_bytes(before).len())
                        == Err::<(Location, nat), ValueDecodeError>(e)
                },
        },
    decreases n,
{
    if n > 0 {
        law_read_location(data, pos);
        match read_location(data, pos) {
            Err(e) => {
                let none = Seq::<Location>::empty();
                assert(data.subrange(pos as int, pos as int) =~= locations_bytes(none));
                assert(read_location(data, pos + locations_bytes(none).len()) == Err::<
                    (Location, nat),
                    ValueDecodeError,
                >(e));
            },
            Ok((l, at)) => {
                let m = (n - 1) as nat;
                lemma_read_locations(data, at, m);
                match read_locations(data, at, m) {
                    Ok(rest) => {
                        let all = seq![l] + rest;
                        assert(all.drop_first() =~= rest);
                        assert(data.subrange(pos as int, (pos + locations_bytes(all).len()) as int)
                            =~= data.subrange(pos as int, at as int) + data.subrange(
                            at as int,
                            (at + locations_bytes(rest).len()) as int,
                        ));
                        assert forall|i: int| 0 <= i < all.len() implies field_fits(
                            (#[trigger] all[i]).file_key,
                        ) by {
                            if i > 0 {
                                assert(all[i] == rest[i - 1]);
                            }
                        }
                    },
                    Err(e) => {
                        let rest = choose|before: Seq<Location>|
                            {
                                &&& before.len() < m
                                &&& at + locations_bytes(before).len() <= data.len()
                                &&& data.subrange(
                                    at as int,
                                    (at + locations_bytes(before).len()) as int,
                                )
                                    == locations_bytes(before)
                                &&& #[trigger] read_location(
                                    data,
                                    at + locations_bytes(before).len(),
                                ) == Err::<(Location, nat), ValueDecodeError>(e)
                            };
                        let all = seq![l] + rest;
                        assert(all.drop_first() =~= rest);
                        assert(data.subrange(pos as int, (pos + locations_bytes(all).len()) as int)
                            =~= data.subrange(pos as int, at as int) + data.subrange(
                            at as int,
                            (at + locations_bytes(rest).len()) as int,
                        ));
                        assert(pos + locations_bytes(all).len() == at + locations_bytes(
                            rest,
                        ).len());
                        assert(read_location(data, pos + locations_bytes(all).len()) == Err::<
                            (Location, nat),
                            ValueDecodeError,
                        >(e));
                    },
                }
            },
        }
    } else {
        assert(data.subrange(pos as int, pos as int) =~= locations_bytes(Seq::empty()));
    }
}

/// The model of a set has its locations, in order.
pub proof fn law_set_view(set: LocationSet)
    ensures
        set@.len() == set.locations@.len(),
        forall|i: int| 0 <= i < set@.len() ==> #[trigger] set@[i] == set.locations@[i]@,
{
}

/// Encodes locations as a set.
pub fn encode_locations(locations: &Vec<EntityLocation>) -> (bytes: Vec<u8>)
    ensures
        bytes@ == set_bytes(locations_view(locations@)),
{
    let ghost all = locations_view(locations@);
    let mut buf: Vec<u8> = Vec::new();
    append_u32(&mut buf, (locations.len() as u64 % 0x1_0000_0000) as u32);
    let ghost head = buf@;
    assert(head =~= le_bytes(len32(all.len()), 4));
    let mut i: usize = 0;
    assert(all.take(0) =~= Seq::empty());
    assert(head + locations_bytes(all.take(0)) =~= head);
    while i < locations.len()
        invariant
            i <= locations@.len(),
            all == locations_view(locations@),
            buf@ == head + locations_bytes(all.take(i as int)),
        decreases locations@.len() - i,
    {
        append_location(&mut buf, &locations[i]);
        proof {
            lemma_push_location(all.take(i as int), all[i as int]);
            assert(all.take(i + 1) =~= all.take(i as int).push(all[i as int]));
            assert(buf@ =~= head + locations_bytes(all.take(i + 1)));
        }
        i += 1;
    }
    assert(all.take(i as int) =~= all);
    buf
}

impl LocationSet {
    /// An empty set.
    pub fn new() -> (s: Self)
        ensures
            s@ == Seq::<Location>::empty(),
    {
        let s = LocationSet { locations: Vec::new() };
        assert(s@ =~= Seq::empty());
        s
    }

    /// A set of one location.
    pub fn single(loc: EntityLocation) -> (s: Self)
        ensures
            s@ == seq![loc@],
    {
        let mut s = LocationSet::new();
        s.push(loc);
        s
    }

    /// Adds a location.
    pub fn push(&mut self, loc: EntityLocation)
        ensures
            final(self)@ == old(self)@.push(loc@),
    {
        self.locations.push(loc);
        assert(self@ =~= old(self)@.push(loc@));
    }

    /// Number of locations.
    pub fn len(&self) -> (n: usize)
        ensures
            n as nat == self@.len(),
    {
        self.locations.len()
    }

    /// Whether there is no location.
    pub fn is_empty(&self) -> (r: bool)
        ensures
            r == (self@.len() == 0),
    {
        self.locations.len() == 0
    }

    /// Encodes the set.
    pub fn encode(&self) -> (bytes: Vec<u8>)
        ensures
            bytes@ == set_bytes(self@),
    {
        encode_locations(&self.locations)
    }

    /// Decodes a set. Bytes behind it are ignored.
    pub fn decode(data: &[u8]) -> (r: Result<Self, ValueDecodeError>)
        ensures
            match r {
                Ok(s) => read_set(data@) == Ok::<Seq<Location>, ValueDecodeError>(s@),
                Err(e) => read_set(data@) == Err::<Seq<Location>, ValueDecodeError>(e),
            },
    {
        if data.len() < 4 {
            return Err(ValueDecodeError::TooShort);
        }
        let count: u32 = read_u32(data, 0);
        let mut set = LocationSet::new();
        let mut pos: usize = 4;
        let mut i: u32 = 0;
        assert(read_locations(data@, 4, count as nat) matches Ok(rest) ==> set@ + rest =~= rest);
        while i < count
            invariant
                i <= count,
                pos <= data@.len(),
                match read_locations(data@, pos as nat, (count - i) as nat) {
                    Ok(rest) => read_set(data@) == Ok::<Seq<Location>, ValueDecodeError>(
                        set@ + rest,
                    ),
                    Err(e) => read_set(data@) == Err::<Seq<Location>, ValueDecodeError>(e),
                },
            decreases count - i,
        {
            match take_location(data, pos) {
                Err(e) => {
                    return Err(e);
                },
                Ok((l, end)) => {
                    let ghost before = set@;
                    let ghost one = l@;
                    set.push(l);
                    proof {
                        let left = (count - i - 1) as nat;
                        if let Ok(rest) = read_locations(data@, end as nat, left) {
                            assert(before + (seq![one] + rest) =~= set@ + rest);
                        }
                    }
                    pos = end;
                },
            }
            i += 1;
        }
        assert(set@ + Seq::<Location>::empty() =~= set@);
        Ok(set)
    }
}

impl Default for LocationSet {
    fn default() -> (s: Self)
        ensures
            s@ == Seq::<Location>::empty(),
    {
        LocationSet::new()
    }
}

} // verus!
