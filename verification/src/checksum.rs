//! Cyclic redundancy checks. CRC-32 protects blocks and footers; CRC-32C, in the form in which the
//! directory stores it, protects the directory.

use vstd::prelude::*;

verus! {

/// The polynomial of CRC-32 (IEEE), lowest power in the highest bit.
pub const IEEE: u32 = 0xEDB8_8320;

/// The polynomial of CRC-32C (Castagnoli), lowest power in the highest bit.
pub const CASTAGNOLI: u32 = 0x82F6_3B78;

/// One step of the division by a polynomial: the lowest bit leaves, and if it was set the
/// polynomial is taken off.
pub open spec fn crc_bit(state: u32, poly: u32) -> u32 {
    if state & 1 == 1 {
        (state >> 1) ^ poly
    } else {
        state >> 1
    }
}

/// `n` steps.
pub open spec fn crc_bits(state: u32, n: nat, poly: u32) -> u32
    decreases n,
{
    if n == 0 {
        state
    } else {
        crc_bit(crc_bits(state, (n - 1) as nat, poly), poly)
    }
}

/// The state after `data`. It starts with all bits set; each byte is added to its low-order bits,
/// and eight steps follow.
pub open spec fn crc_state(data: Seq<u8>, poly: u32) -> u32
    decreases data.len(),
{
    if data.len() == 0 {
        0xFFFF_FFFF
    } else {
        crc_bits(crc_state(data.drop_last(), poly) ^ (data.last() as u32), 8, poly)
    }
}

/// The check of `data`: all bits of the last state inverted.
pub open spec fn crc(data: Seq<u8>, poly: u32) -> u32 {
    !crc_state(data, poly)
}

/// The CRC-32 (IEEE) of `data`.
#[verifier::opaque]
pub open spec fn crc32(data: Seq<u8>) -> u32 {
    crc(data, IEEE)
}

/// The CRC-32C of `data`, masked: rotated right by 15 bits, and a constant added.
#[verifier::opaque]
pub open spec fn masked_crc32c(data: Seq<u8>) -> u32 {
    mask(crc(data, CASTAGNOLI))
}

/// How a CRC-32C is masked.
pub open spec fn mask(sum: u32) -> u32 {
    ((((sum >> 15) | (sum << 17)) as nat + 0xA282_EAD8) % 0x1_0000_0000) as u32
}

/// `crc32fast::hash`: the CRC-32 (IEEE) of a byte slice. Trusted: it returns `crc32(data@)`, and it
/// never fails.
#[verifier::external_body]
pub(crate) fn checksum(data: &[u8]) -> (sum: u32)
    ensures
        sum == crc32(data@),
{
    crc32fast::hash(data)
}

// ---------------------------------------------------------------------------
// Laws
// ---------------------------------------------------------------------------

/// A step loses nothing, if the highest bit of the polynomial is set.
proof fn lemma_bit_injective(a: u32, b: u32, poly: u32)
    requires
        poly & 0x8000_0000 != 0,
        crc_bit(a, poly) == crc_bit(b, poly),
    ensures
        a == b,
{
    assert(a == b) by (bit_vector)
        requires
            poly & 0x8000_0000 != 0,
            (if a & 1 == 1 {
                (a >> 1) ^ poly
            } else {
                a >> 1
            }) == (if b & 1 == 1 {
                (b >> 1) ^ poly
            } else {
                b >> 1
            }),
    ;
}

/// Nor do several.
proof fn lemma_bits_injective(a: u32, b: u32, n: nat, poly: u32)
    requires
        poly & 0x8000_0000 != 0,
        crc_bits(a, n, poly) == crc_bits(b, n, poly),
    ensures
        a == b,
    decreases n,
{
    if n > 0 {
        let m = (n - 1) as nat;
        lemma_bit_injective(crc_bits(a, m, poly), crc_bits(b, m, poly), poly);
        lemma_bits_injective(a, b, m, poly);
    }
}

/// A changed byte changes the state.
proof fn lemma_state_differs(data: Seq<u8>, i: int, b: u8, poly: u32)
    requires
        poly & 0x8000_0000 != 0,
        0 <= i < data.len(),
        b != data[i],
    ensures
        crc_state(data.update(i, b), poly) != crc_state(data, poly),
    decreases data.len(),
{
    let other = data.update(i, b);
    let (s, t) = (crc_state(data.drop_last(), poly), crc_state(other.drop_last(), poly));
    let (x, y) = (data.last(), other.last());
    if crc_state(other, poly) == crc_state(data, poly) {
        lemma_bits_injective(s ^ (x as u32), t ^ (y as u32), 8, poly);
        if i == data.len() - 1 {
            assert(other.drop_last() =~= data.drop_last());
            assert(x == y) by (bit_vector)
                requires
                    s ^ (x as u32) == s ^ (y as u32),
            ;
        } else {
            assert(other.drop_last() =~= data.drop_last().update(i, b));
            lemma_state_differs(data.drop_last(), i, b, poly);
            assert(s == t) by (bit_vector)
                requires
                    s ^ (x as u32) == t ^ (x as u32),
            ;
        }
    }
}

/// Bytes of which exactly one was changed have another CRC-32.
pub proof fn law_crc32_differs(data: Seq<u8>, i: int, b: u8)
    requires
        0 <= i < data.len(),
        b != data[i],
    ensures
        crc32(data.update(i, b)) != crc32(data),
{
    reveal(crc32);
    assert(IEEE & 0x8000_0000 != 0) by (bit_vector);
    lemma_state_differs(data, i, b, IEEE);
    lemma_inverted(crc_state(data.update(i, b), IEEE), crc_state(data, IEEE));
}

/// Bytes of which exactly one was changed have another masked CRC-32C.
pub proof fn law_crc32c_differs(data: Seq<u8>, i: int, b: u8)
    requires
        0 <= i < data.len(),
        b != data[i],
    ensures
        masked_crc32c(data.update(i, b)) != masked_crc32c(data),
{
    reveal(masked_crc32c);
    assert(CASTAGNOLI & 0x8000_0000 != 0) by (bit_vector);
    lemma_state_differs(data, i, b, CASTAGNOLI);
    let (x, y) = (crc_state(data.update(i, b), CASTAGNOLI), crc_state(data, CASTAGNOLI));
    lemma_inverted(x, y);
    lemma_mask_injective(!x, !y);
}

proof fn lemma_inverted(a: u32, b: u32)
    requires
        a != b,
    ensures
        !a != !b,
{
    assert(!a != !b) by (bit_vector)
        requires
            a != b,
    ;
}

proof fn lemma_mask_injective(a: u32, b: u32)
    requires
        a != b,
    ensures
        mask(a) != mask(b),
{
    let (x, y) = ((a >> 15) | (a << 17), (b >> 15) | (b << 17));
    assert(x != y) by (bit_vector)
        requires
            x == (a >> 15) | (a << 17),
            y == (b >> 15) | (b << 17),
            a != b,
    ;
}

} // verus!
