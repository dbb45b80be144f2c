//! Little-endian integers inside byte buffers.

use vstd::arithmetic::power::pow;
use vstd::prelude::*;

verus! {

/// The `width` low-order base-256 digits of `n`, least significant first.
pub open spec fn le_bytes(n: nat, width: nat) -> Seq<u8>
    decreases width,
{
    if width == 0 {
        Seq::empty()
    } else {
        seq![(n % 256) as u8] + le_bytes(n / 256, (width - 1) as nat)
    }
}

/// The number whose base-256 digits, least significant first, are `s`.
pub open spec fn le_value(s: Seq<u8>) -> nat
    decreases s.len(),
{
    if s.len() == 0 {
        0
    } else {
        s[0] as nat + 256 * le_value(s.drop_first())
    }
}

/// `256^width`: one more than the largest number that `width` bytes hold.
pub open spec fn le_bound(width: nat) -> nat
    decreases width,
{
    if width == 0 {
        1
    } else {
        256 * le_bound((width - 1) as nat)
    }
}

/// `le_bytes` gives exactly `width` bytes.
pub proof fn lemma_le_len(n: nat, width: nat)
    ensures
        le_bytes(n, width).len() == width,
    decreases width,
{
    if width > 0 {
        lemma_le_len(n / 256, (width - 1) as nat);
    }
}

/// Reading back the bytes of a number that fits gives the number.
pub proof fn lemma_le_round_trip(n: nat, width: nat)
    requires
        n < le_bound(width),
    ensures
        le_bytes(n, width).len() == width,
        le_value(le_bytes(n, width)) == n,
    decreases width,
{
    if width > 0 {
        let tail = le_bytes(n / 256, (width - 1) as nat);
        lemma_le_round_trip(n / 256, (width - 1) as nat);
        assert(le_bytes(n, width).drop_first() =~= tail);
    }
}

/// Byte `i` of a number is its digit at 256 to the power `i`.
pub proof fn law_le_digit(n: nat, width: nat, i: nat)
    requires
        i < width,
    ensures
        le_bytes(n, width).len() == width,
        le_bytes(n, width)[i as int] as int == (n as int / pow(256, i)) % 256,
    decreases width,
{
    lemma_le_len(n, width);
    lemma_le_power(i);
    if i > 0 {
        let tail = le_bytes(n / 256, (width - 1) as nat);
        let p = le_bound((i - 1) as nat);
        law_le_digit(n / 256, (width - 1) as nat, (i - 1) as nat);
        assert(le_bytes(n, width)[i as int] == tail[i - 1]);
        assert(p > 0) by {
            lemma_le_positive((i - 1) as nat);
        }
        vstd::arithmetic::div_mod::lemma_div_denominator(n as int, 256, p as int);
        assert((n / 256) / p == n / (256 * p));
        lemma_le_power((i - 1) as nat);
        assert(le_bound(i) == 256 * p);
    } else {
        assert(le_bound(0) == 1);
        assert(n as int / 1 == n as int);
    }
}

proof fn lemma_le_positive(width: nat)
    ensures
        le_bound(width) > 0,
    decreases width,
{
    if width > 0 {
        lemma_le_positive((width - 1) as nat);
    }
}

/// A bound is a power of 256.
proof fn lemma_le_power(width: nat)
    ensures
        le_bound(width) == pow(256, width),
    decreases width,
{
    if width > 0 {
        lemma_le_power((width - 1) as nat);
    }
    reveal(pow);
}

/// The number of some bytes is the sum of its digits times their powers of 256.
pub proof fn law_le_value(s: Seq<u8>, t: Seq<u8>)
    ensures
        le_value(Seq::empty()) == 0,
        s.len() == 1 ==> le_value(s) == s[0],
        le_value(s + t) == le_value(s) + pow(256, s.len()) * le_value(t),
    decreases s.len(),
{
    reveal(pow);
    if s.len() == 0 {
        assert(s + t =~= t);
    } else {
        law_le_value(s.drop_first(), t);
        assert((s + t).drop_first() =~= s.drop_first() + t);
        let (p, v) = (pow(256, (s.len() - 1) as nat), le_value(t) as int);
        assert(256 * (p * v) == (256 * p) * v) by (nonlinear_arith);
        if s.len() == 1 {
            assert(s.drop_first() =~= Seq::empty());
            assert(le_value(s.drop_first()) == 0);
        }
    }
}

/// Equally many bytes of the same number are the same bytes.
pub proof fn lemma_le_injective(s: Seq<u8>, t: Seq<u8>)
    requires
        s.len() == t.len(),
        le_value(s) == le_value(t),
    ensures
        s == t,
    decreases s.len(),
{
    if s.len() > 0 {
        lemma_le_injective(s.drop_first(), t.drop_first());
        assert(s =~= seq![s[0]] + s.drop_first());
        assert(t =~= seq![t[0]] + t.drop_first());
    }
    assert(s =~= t);
}

/// Bytes are those of the number that they hold.
pub proof fn lemma_le_of_value(s: Seq<u8>)
    ensures
        le_value(s) < le_bound(s.len()),
        le_bytes(le_value(s), s.len()) == s,
{
    lemma_le_bounded(s);
    lemma_le_round_trip(le_value(s), s.len());
    lemma_le_injective(le_bytes(le_value(s), s.len()), s);
}

/// Bytes hold a number below the bound of their width.
pub proof fn lemma_le_bounded(s: Seq<u8>)
    ensures
        le_value(s) < le_bound(s.len()),
    decreases s.len(),
{
    if s.len() > 0 {
        lemma_le_bounded(s.drop_first());
    }
}

/// The bounds of the three widths in use.
pub proof fn lemma_le_bounds()
    ensures
        le_bound(2) == 0x1_0000,
        le_bound(4) == 0x1_0000_0000,
        le_bound(8) == 0x1_0000_0000_0000_0000,
{
    reveal_with_fuel(le_bound, 9);
}

/// Appends a slice.
pub fn append_slice(buf: &mut Vec<u8>, s: &[u8])
    ensures
        final(buf)@ == old(buf)@ + s@,
{
    buf.extend_from_slice(s);
    assert(buf@ =~= old(buf)@ + s@);
}

/// Appends two bytes.
pub fn append_u16(buf: &mut Vec<u8>, n: u16)
    ensures
        final(buf)@ == old(buf)@ + le_bytes(n as nat, 2),
{
    let n1: u16 = n / 256;
    buf.push((n % 256) as u8);
    buf.push((n1 % 256) as u8);
    proof {
        reveal_with_fuel(le_bytes, 3);
        assert(buf@ =~= old(buf)@ + le_bytes(n as nat, 2));
    }
}

/// Appends four bytes.
pub fn append_u32(buf: &mut Vec<u8>, n: u32)
    ensures
        final(buf)@ == old(buf)@ + le_bytes(n as nat, 4),
{
    let n1: u32 = n / 256;
    let n2: u32 = n1 / 256;
    let n3: u32 = n2 / 256;
    buf.push((n % 256) as u8);
    buf.push((n1 % 256) as u8);
    buf.push((n2 % 256) as u8);
    buf.push((n3 % 256) as u8);
    proof {
        reveal_with_fuel(le_bytes, 5);
        assert(buf@ =~= old(buf)@ + le_bytes(n as nat, 4));
    }
}

/// Appends eight bytes.
pub fn append_u64(buf: &mut Vec<u8>, n: u64)
    ensures
        final(buf)@ == old(buf)@ + le_bytes(n as nat, 8),
{
    let n1: u64 = n / 256;
    let n2: u64 = n1 / 256;
    let n3: u64 = n2 / 256;
    let n4: u64 = n3 / 256;
    let n5: u64 = n4 / 256;
    let n6: u64 = n5 / 256;
    let n7: u64 = n6 / 256;
    buf.push((n % 256) as u8);
    buf.push((n1 % 256) as u8);
    buf.push((n2 % 256) as u8);
    buf.push((n3 % 256) as u8);
    buf.push((n4 % 256) as u8);
    buf.push((n5 % 256) as u8);
    buf.push((n6 % 256) as u8);
    buf.push((n7 % 256) as u8);
    proof {
        reveal_with_fuel(le_bytes, 9);
        assert(buf@ =~= old(buf)@ + le_bytes(n as nat, 8));
    }
}

/// Reads two bytes at `pos`.
pub fn read_u16(data: &[u8], pos: usize) -> (n: u16)
    requires
        pos + 2 <= data@.len(),
    ensures
        n as nat == le_value(data@.subrange(pos as int, pos + 2)),
{
    proof {
        reveal_with_fuel(le_value, 3);
    }
    data[pos] as u16 + 256 * (data[pos + 1] as u16)
}

/// Reads four bytes at `pos`.
pub fn read_u32(data: &[u8], pos: usize) -> (n: u32)
    requires
        pos + 4 <= data@.len(),
    ensures
        n as nat == le_value(data@.subrange(pos as int, pos + 4)),
{
    proof {
        reveal_with_fuel(le_value, 5);
    }
    data[pos] as u32 + 256 * (data[pos + 1] as u32 + 256 * (data[pos + 2] as u32 + 256 * (data[pos
        + 3] as u32)))
}

/// Reads eight bytes at `pos`.
pub fn read_u64(data: &[u8], pos: usize) -> (n: u64)
    requires
        pos + 8 <= data@.len(),
    ensures
        n as nat == le_value(data@.subrange(pos as int, pos + 8)),
{
    proof {
        reveal_with_fuel(le_value, 9);
    }
    assert(pos + 8 <= data.len());
    let d7: u64 = data[pos + 7] as u64;
    let d6: u64 = data[pos + 6] as u64 + 256 * d7;
    let d5: u64 = data[pos + 5] as u64 + 256 * d6;
    let d4: u64 = data[pos + 4] as u64 + 256 * d5;
    let d3: u64 = data[pos + 3] as u64 + 256 * d4;
    let d2: u64 = data[pos + 2] as u64 + 256 * d3;
    let d1: u64 = data[pos + 1] as u64 + 256 * d2;
    data[pos] as u64 + 256 * d1
}

} // verus!
