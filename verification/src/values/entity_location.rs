//! Where an entity lies in stored tables.
//!
//! ```text
//! file_key_len: u16
//! file_key:     file_key_len bytes
//! row_group:    u32
//! row_offset:   u32
//! ```
//!
//! All numbers are little-endian.

use vstd::prelude::*;
use crate::bytes::{
    append_u32, le_bytes, le_value, lemma_le_bounds, lemma_le_of_value, lemma_le_round_trip,
    read_u32,
};
use crate::values::field::{
    append_field, field_bytes, field_fits, law_read_field, lemma_field_cut, lemma_field_round_trip,
    read_field, take_field,
};

verus! {

/// Where an entity lies.
#[derive(Debug, Clone, PartialEq, Eq)]
pub struct EntityLocation {
    /// Key of the file that holds the entity.
    pub file_key: String,
    /// Row group in the file.
    pub row_group: u32,
    /// Row in the row group.
    pub row_offset: u32,
}

/// Why a value cannot be decoded.
#[derive(Debug, Clone, Copy, PartialEq, Eq, Structural)]
pub enum ValueDecodeError {
    /// There are too few bytes.
    TooShort,
    /// Text is not valid UTF-8.
    InvalidUtf8,
    /// A code has no meaning.
    InvalidFormat,
}

impl ValueDecodeError {
    /// The text of the error.
    pub open spec fn text(self) -> Seq<char> {
        match self {
            ValueDecodeError::TooShort => "Data too short for value type"@,
            ValueDecodeError::InvalidUtf8 => "Invalid UTF-8 in string field"@,
            ValueDecodeError::InvalidFormat => "Invalid format"@,
        }
    }

    /// Describes the error.
    pub fn message(&self) -> (r: String)
        ensures
            r@ == self.text(),
    {
        match self {
            ValueDecodeError::TooShort => String::from_str("Data too short for value type"),
            ValueDecodeError::InvalidUtf8 => String::from_str("Invalid UTF-8 in string field"),
            ValueDecodeError::InvalidFormat => String::from_str("Invalid format"),
        }
    }
}

/// What the errors of values say.
pub proof fn law_value_error_texts()
    ensures
        ValueDecodeError::TooShort.text() == "Data too short for value type"@,
        ValueDecodeError::InvalidUtf8.text() == "Invalid UTF-8 in string field"@,
        ValueDecodeError::InvalidFormat.text() == "Invalid format"@,
{
}

/// A location, its file key as a sequence of characters.
#[verifier::ext_equal]
pub struct Location {
    pub file_key: Seq<char>,
    pub row_group: u32,
    pub row_offset: u32,
}

impl View for EntityLocation {
    type V = Location;

    open spec fn view(&self) -> Location {
        Location {
            file_key: self.file_key@,
            row_group: self.row_group,
            row_offset: self.row_offset,
        }
    }
}

/// The bytes of a location.
pub open spec fn location_bytes(l: Location) -> Seq<u8> {
    field_bytes(l.file_key) + le_bytes(l.row_group as nat, 4) + le_bytes(l.row_offset as nat, 4)
}

/// Reads the location at `pos`. Gives the location and the position behind it.
pub open spec fn read_location(data: Seq<u8>, pos: nat) -> Result<
    (Location, nat),
    ValueDecodeError,
> {
    match read_field(data, pos, 8) {
        Err(e) => Err(e),
        Ok((file_key, at)) => Ok(
            (
                Location {
                    file_key,
                    row_group: le_value(data.subrange(at as int, (at + 4) as int)) as u32,
                    row_offset: le_value(data.subrange((at + 4) as int, (at + 8) as int)) as u32,
                },
                at + 8,
            ),
        ),
    }
}

/// A location is read back wherever it stands.
pub proof fn lemma_location_round_trip(before: Seq<u8>, l: Location, after: Seq<u8>)
    requires
        field_fits(l.file_key),
    ensures
        read_location(before + location_bytes(l) + after, before.len()) == Ok::<
            (Location, nat),
            ValueDecodeError,
        >((l, before.len() + location_bytes(l).len())),
{
    let (g, o) = (le_bytes(l.row_group as nat, 4), le_bytes(l.row_offset as nat, 4));
    let data = before + location_bytes(l) + after;
    lemma_le_bounds();
    lemma_le_round_trip(l.row_group as nat, 4);
    lemma_le_round_trip(l.row_offset as nat, 4);
    lemma_field_round_trip(before, l.file_key, g + o + after, 8);
    assert(data =~= before + field_bytes(l.file_key) + (g + o + after));
    let at = before.len() + field_bytes(l.file_key).len() as int;
    assert(data.subrange(at, at + 4) =~= g);
    assert(data.subrange(at + 4, at + 8) =~= o);
}

/// Decoding an encoded location gives it back, if the length of its file key fits in 16 bits. What
/// follows the encoding does not matter.
pub proof fn law_location_round_trip(l: Location, after: Seq<u8>)
    requires
        field_fits(l.file_key),
    ensures
        read_location(location_bytes(l) + after, 0) matches Ok((decoded, _)) && decoded == l,
{
    lemma_location_round_trip(Seq::empty(), l, after);
    assert(Seq::<u8>::empty() + location_bytes(l) + after =~= location_bytes(l) + after);
}

/// A location of which the end is cut off is too short.
pub proof fn lemma_location_cut(before: Seq<u8>, l: Location, after: Seq<u8>, cut: int)
    requires
        field_fits(l.file_key),
        before.len() <= cut < before.len() + location_bytes(l).len(),
    ensures
        read_location((before + location_bytes(l) + after).take(cut), before.len()) == Err::<
            (Location, nat),
            ValueDecodeError,
        >(ValueDecodeError::TooShort),
{
    let (g, o) = (le_bytes(l.row_group as nat, 4), le_bytes(l.row_offset as nat, 4));
    lemma_le_bounds();
    lemma_le_round_trip(l.row_group as nat, 4);
    lemma_le_round_trip(l.row_offset as nat, 4);
    lemma_field_cut(before, l.file_key, g + o + after, 8, cut);
    assert(before + location_bytes(l) + after =~= before + field_bytes(l.file_key) + (g + o
        + after));
}

/// An encoded location without its end is too short, wherever it is cut.
pub proof fn law_location_cut(l: Location, cut: nat)
    requires
        field_fits(l.file_key),
        cut < location_bytes(l).len(),
    ensures
        read_location(location_bytes(l).take(cut as int), 0) == Err::<
            (Location, nat),
            ValueDecodeError,
        >(ValueDecodeError::TooShort),
{
    let none = Seq::<u8>::empty();
    lemma_location_cut(none, l, none, cut as int);
    assert(none + location_bytes(l) + none =~= location_bytes(l));
}

/// An encoded location is the file key as a text field, then row group and row in four bytes each.
pub proof fn law_location_bytes(l: Location)
    ensures
        location_bytes(l) == field_bytes(l.file_key) + le_bytes(l.row_group as nat, 4) + le_bytes(
            l.row_offset as nat,
            4,
        ),
{
}

/// What is decoded as a location is one: the bytes read are its encoding. It is refused for the
/// reason for which its file key, with the eight bytes behind it, is.
pub proof fn law_read_location(data: Seq<u8>, pos: nat)
    ensures
        match read_location(data, pos) {
            Ok((l, end)) => {
                &&& field_fits(l.file_key)
                &&& end == pos + location_bytes(l).len()
                &&& end <= data.len()
                &&& data.subrange(pos as int, end as int) == location_bytes(l)
            },
            Err(e) => read_field(data, pos, 8) == Err::<(Seq<char>, nat), ValueDecodeError>(e),
        },
{
    law_read_field(data, pos, 8);
    if let Ok((l, end)) = read_location(data, pos) {
        let at = end - 8;
        let (g, o) = (data.subrange(at, at + 4), data.subrange(at + 4, at + 8));
        lemma_le_bounds();
        lemma_le_of_value(g);
        lemma_le_of_value(o);
        assert(data.subrange(pos as int, end as int) =~= data.subrange(pos as int, at) + g + o);
    }
}

/// The model of a location has its fields.
pub proof fn law_location_view(l: EntityLocation)
    ensures
        l@.file_key == l.file_key@ && l@.row_group == l.row_group && l@.row_offset == l.row_offset,
{
}

/// Appends a location.
pub fn append_location(buf: &mut Vec<u8>, l: &EntityLocation)
    ensures
        final(buf)@ == old(buf)@ + location_bytes(l@),
{
    append_field(buf, l.file_key.as_str());
    append_u32(buf, l.row_group);
    append_u32(buf, l.row_offset);
    assert(buf@ =~= old(buf)@ + location_bytes(l@));
}

/// Reads the location at `pos`.
pub fn take_location(data: &[u8], pos: usize) -> (r: Result<
    (EntityLocation, usize),
    ValueDecodeError,
>)
    requires
        pos <= data@.len(),
    ensures
        match r {
            Ok((l, end)) => {
                &&& read_location(data@, pos as nat) == Ok::<(Location, nat), ValueDecodeError>(
                    (l@, end as nat),
                )
                &&& pos < end <= data@.len()
            },
            Err(e) => read_location(data@, pos as nat) == Err::<(Location, nat), ValueDecodeError>(
                e,
            ),
        },
{
    match take_field(data, pos, 8) {
        Err(e) => Err(e),
        Ok((file_key, at)) => {
            assert(at + 8 <= data.len());
            let row_group: u32 = read_u32(data, at);
            let row_offset: u32 = read_u32(data, at + 4);
            Ok((EntityLocation { file_key, row_group, row_offset }, at + 8))
        },
    }
}

impl EntityLocation {
    /// Encodes the location.
    pub fn encode(&self) -> (bytes: Vec<u8>)
        ensures
            bytes@ == location_bytes(self@),
    {
        let mut buf: Vec<u8> = Vec::new();
        append_location(&mut buf, self);
        assert(buf@ =~= location_bytes(self@));
        buf
    }

    /// Decodes a location. Bytes behind it are ignored.
    pub fn decode(data: &[u8]) -> (r: Result<Self, ValueDecodeError>)
        ensures
            match r {
                Ok(l) => read_location(data@, 0) matches Ok((decoded, _)) && decoded == l@,
                Err(e) => read_location(data@, 0) == Err::<(Location, nat), ValueDecodeError>(e),
            },
    {
        match take_location(data, 0) {
            Ok((l, _)) => Ok(l),
            Err(e) => Err(e),
        }
    }
}

} // verus!
