//! Text fields: two bytes of length, then the text in UTF-8.

use vstd::prelude::*;
use vstd::slice::slice_subrange;
use vstd::utf8::{
    decode_utf8, decode_utf8_encode_utf8, encode_utf8, encode_utf8_decode_utf8,
    encode_utf8_valid_utf8, valid_utf8,
};
use crate::bytes::{
    append_slice, append_u16, le_bytes, le_value, lemma_le_bounds, lemma_le_of_value,
    lemma_le_round_trip, read_u16,
};
use crate::text::{text_bytes, utf8_text};
use crate::values::entity_location::ValueDecodeError;

verus! {

/// A length as two bytes store it: its 16 low-order bits.
pub open spec fn len16(n: nat) -> nat {
    n % 0x1_0000
}

/// The text is short enough for its length to be stored.
pub open spec fn field_fits(text: Seq<char>) -> bool {
    encode_utf8(text).len() < 0x1_0000
}

/// The bytes of a text field.
pub open spec fn field_bytes(text: Seq<char>) -> Seq<u8> {
    le_bytes(len16(encode_utf8(text).len()), 2) + encode_utf8(text)
}

/// Reads the text field at `pos`, behind which at least `extra` bytes must follow. Gives the text
/// and the position behind it.
pub open spec fn read_field(data: Seq<u8>, pos: nat, extra: nat) -> Result<
    (Seq<char>, nat),
    ValueDecodeError,
> {
    let n = le_value(data.subrange(pos as int, (pos + 2) as int));
    if pos + 2 > data.len() || pos + 2 + n + extra > data.len() {
        Err(ValueDecodeError::TooShort)
    } else {
        let bytes = data.subrange((pos + 2) as int, (pos + 2 + n) as int);
        if valid_utf8(bytes) {
            Ok((decode_utf8(bytes), pos + 2 + n))
        } else {
            Err(ValueDecodeError::InvalidUtf8)
        }
    }
}

/// A text field is read back wherever it stands.
pub proof fn lemma_field_round_trip(
    before: Seq<u8>,
    text: Seq<char>,
    after: Seq<u8>,
    extra: nat,
)
    requires
        field_fits(text),
        extra <= after.len(),
    ensures
        field_bytes(text).len() == 2 + encode_utf8(text).len(),
        read_field(before + field_bytes(text) + after, before.len(), extra) == Ok::<
            (Seq<char>, nat),
            ValueDecodeError,
        >((text, before.len() + field_bytes(text).len())),
{
    let bytes = encode_utf8(text);
    let data = before + field_bytes(text) + after;
    let pos = before.len() as int;
    lemma_le_bounds();
    lemma_le_round_trip(bytes.len(), 2);
    encode_utf8_valid_utf8(text);
    encode_utf8_decode_utf8(text);
    assert(data.subrange(pos, pos + 2) =~= le_bytes(bytes.len(), 2));
    assert(data.subrange(pos + 2, pos + 2 + bytes.len()) =~= bytes);
}

/// A text field of which the end, or one of the `extra` bytes behind it, is cut off is too short.
pub proof fn lemma_field_cut(
    before: Seq<u8>,
    text: Seq<char>,
    after: Seq<u8>,
    extra: nat,
    cut: int,
)
    requires
        field_fits(text),
        before.len() <= cut < before.len() + field_bytes(text).len() + extra,
        cut <= (before + field_bytes(text) + after).len(),
    ensures
        read_field((before + field_bytes(text) + after).take(cut), before.len(), extra) == Err::<
            (Seq<char>, nat),
            ValueDecodeError,
        >(ValueDecodeError::TooShort),
{
    let bytes = encode_utf8(text);
    let data = (before + field_bytes(text) + after).take(cut);
    let pos = before.len() as int;
    lemma_le_bounds();
    lemma_le_round_trip(bytes.len(), 2);
    if pos + 2 <= cut {
        assert(data.subrange(pos, pos + 2) =~= le_bytes(bytes.len(), 2));
    }
}

/// A text field is the length of the text in UTF-8, its 16 low-order bits in two bytes, and then
/// the text.
pub proof fn law_field_bytes(text: Seq<char>)
    ensures
        field_bytes(text) == le_bytes(encode_utf8(text).len() % 0x1_0000, 2) + encode_utf8(text),
        field_fits(text) <==> encode_utf8(text).len() <= 0xFFFF,
{
}

/// What is read as a text field is one: the bytes read are those of a field with the text that was
/// read, and what must follow is there. It is too short exactly if there are fewer bytes than its
/// length and what must follow ask for; otherwise it fails only if the text is not UTF-8.
pub proof fn law_read_field(data: Seq<u8>, pos: nat, extra: nat)
    ensures
        match read_field(data, pos, extra) {
            Ok((text, end)) => {
                &&& field_fits(text)
                &&& end == pos + field_bytes(text).len()
                &&& end + extra <= data.len()
                &&& data.subrange(pos as int, end as int) == field_bytes(text)
            },
            Err(ValueDecodeError::TooShort) => pos + 2 > data.len() || pos + 2 + le_value(
                data.subrange(pos as int, (pos + 2) as int),
            ) + extra > data.len(),
            Err(ValueDecodeError::InvalidUtf8) => {
                let n = le_value(data.subrange(pos as int, (pos + 2) as int));
                pos + 2 + n + extra <= data.len() && !valid_utf8(
                    data.subrange((pos + 2) as int, (pos + 2 + n) as int),
                )
            },
            Err(_) => false,
        },
{
    if let Ok((text, end)) = read_field(data, pos, extra) {
        let head = data.subrange(pos as int, (pos + 2) as int);
        let n = le_value(head);
        let bytes = data.subrange((pos + 2) as int, (pos + 2 + n) as int);
        lemma_le_bounds();
        lemma_le_of_value(head);
        decode_utf8_encode_utf8(bytes);
        assert(field_bytes(text) =~= head + bytes);
        assert(data.subrange(pos as int, end as int) =~= head + bytes);
    }
}

/// The 16 low-order bits of a length.
pub fn low16(n: usize) -> (r: u16)
    ensures
        r as nat == len16(n as nat),
{
    (n % 0x1_0000) as u16
}

/// Appends a text field.
pub fn append_field(buf: &mut Vec<u8>, text: &str)
    ensures
        final(buf)@ == old(buf)@ + field_bytes(text@),
{
    let bytes = text_bytes(text);
    append_u16(buf, low16(bytes.len()));
    append_slice(buf, bytes);
    assert(buf@ =~= old(buf)@ + field_bytes(text@));
}

/// Reads the text field at `pos`, behind which at least `extra` bytes must follow.
pub fn take_field(data: &[u8], pos: usize, extra: usize) -> (r: Result<
    (String, usize),
    ValueDecodeError,
>)
    requires
        pos <= data@.len(),
    ensures
        match r {
            Ok((text, end)) => {
                &&& read_field(data@, pos as nat, extra as nat) == Ok::<
                    (Seq<char>, nat),
                    ValueDecodeError,
                >((text@, end as nat))
                &&& pos < end
                &&& end + extra <= data@.len()
            },
            Err(e) => read_field(data@, pos as nat, extra as nat) == Err::<
                (Seq<char>, nat),
                ValueDecodeError,
            >(e),
        },
{
    if data.len() - pos < 2 {
        return Err(ValueDecodeError::TooShort);
    }
    let n: usize = read_u16(data, pos) as usize;
    let start: usize = pos + 2;
    if data.len() - start < n || data.len() - start - n < extra {
        return Err(ValueDecodeError::TooShort);
    }
    match utf8_text(slice_subrange(data, start, start + n)) {
        Some(text) => Ok((String::from_str(text), start + n)),
        None => Err(ValueDecodeError::InvalidUtf8),
    }
}

} // verus!
