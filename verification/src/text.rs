//! Text as bytes.

use vstd::prelude::*;
use vstd::utf8::{decode_utf8, encode_utf8, encode_utf8_decode_utf8, valid_utf8};
use crate::order::{compare_bytes, KeyOrder};

verus! {

/// `std::str::from_utf8`: bytes as text. Trusted: it succeeds exactly on valid UTF-8, and the text
/// is the one that the bytes encode.
#[verifier::external_body]
pub(crate) fn utf8_text(bytes: &[u8]) -> (r: Option<&str>)
    ensures
        r is Some <==> valid_utf8(bytes@),
        r matches Some(text) ==> text@ == decode_utf8(bytes@),
{
    std::str::from_utf8(bytes).ok()
}

/// What `String::from_utf8_lossy` makes of bytes.
pub uninterp spec fn utf8_lossy(bytes: Seq<u8>) -> Seq<char>;

/// `String::from_utf8_lossy`: bytes as text, with a replacement character wherever they are not
/// valid UTF-8. Trusted: the text depends on the bytes alone; valid UTF-8 gives the text that it
/// encodes.
#[verifier::external_body]
pub(crate) fn lossy_text(bytes: &[u8]) -> (r: String)
    ensures
        r@ == utf8_lossy(bytes@),
        valid_utf8(bytes@) ==> r@ == decode_utf8(bytes@),
{
    String::from_utf8_lossy(bytes).into_owned()
}

/// The bytes of text.
pub fn text_bytes(text: &str) -> (bytes: &[u8])
    ensures
        bytes@ == encode_utf8(text@),
{
    text.as_bytes()
}

/// Whether two texts are the same.
pub fn same_text(a: &str, b: &str) -> (r: bool)
    ensures
        r == (a@ == b@),
{
    proof {
        encode_utf8_decode_utf8(a@);
        encode_utf8_decode_utf8(b@);
    }
    match compare_bytes(text_bytes(a), text_bytes(b)) {
        KeyOrder::Equal => true,
        _ => false,
    }
}

} // verus!
