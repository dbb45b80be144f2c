//! Variable-length encoding of 32-bit numbers: seven bits per byte, least
//! significant group first, with the high bit set on every byte but the last.

use vstd::arithmetic::power::pow;
use vstd::prelude::*;
use crate::block::BlockError;

verus! {

/// The bytes of `n`.
pub open spec fn varint(n: nat) -> Seq<u8>
    decreases n,
{
    if n < 0x80 {
        seq![n as u8]
    } else {
        seq![(n % 0x80 + 0x80) as u8] + varint(n / 0x80)
    }
}

/// What reading the number that starts at the front of `s` gives: the number and the bytes it
/// takes. Bits beyond the 32nd are dropped. A sixth byte is an error, and so is the end of `s`
/// before the last byte.
#[verifier::opaque]
pub open spec fn parse_varint(s: Seq<u8>) -> Result<(u32, nat), BlockError> {
    parse_varint_from(s, 0, 0)
}

/// Continues `parse_varint` after `i` bytes that gave `value` so far.
pub open spec fn parse_varint_from(s: Seq<u8>, i: nat, value: nat) -> Result<(u32, nat), BlockError>
    decreases s.len() - i,
{
    if i >= s.len() {
        Err(BlockError::UnexpectedEof)
    } else if i >= 5 {
        Err(BlockError::InvalidVarint)
    } else {
        let grown = (value + (s[i as int] % 0x80) as nat * group_weight(i)) % 0x1_0000_0000;
        if s[i as int] < 0x80 {
            Ok((grown as u32, i + 1))
        } else {
            parse_varint_from(s, i + 1, grown)
        }
    }
}

/// `128^i`: the weight of the `i`-th group of seven bits.
pub open spec fn group_weight(i: nat) -> nat
    decreases i,
{
    if i == 0 {
        1
    } else {
        0x80 * group_weight((i - 1) as nat)
    }
}

/// A number takes one to five bytes.
pub proof fn lemma_varint_len(n: nat)
    requires
        n < 0x1_0000_0000,
    ensures
        1 <= varint(n).len() <= 5,
{
    reveal_with_fuel(varint, 5);
}

/// Reading resumed in front of the remaining groups of a number gives the whole number.
proof fn lemma_parse_from(s: Seq<u8>, i: nat, value: nat, n: nat)
    requires
        i <= 4,
        value + n * group_weight(i) < 0x1_0000_0000,
        i + varint(n).len() <= s.len(),
        s.subrange(i as int, (i + varint(n).len()) as int) == varint(n),
    ensures
        parse_varint_from(s, i, value) == Ok::<(u32, nat), BlockError>(
            ((value + n * group_weight(i)) as u32, i + varint(n).len()),
        ),
    decreases n,
{
    reveal_with_fuel(group_weight, 6);
    let sub = s.subrange(i as int, (i + varint(n).len()) as int);
    assert(s[i as int] == sub[0]);
    if n >= 0x80 {
        let low = n % 0x80;
        let high = n / 0x80;
        let w = group_weight(i);
        assert(s[i as int] % 0x80 == low);
        assert(n * w == low * w + high * (0x80 * w)) by (nonlinear_arith)
            requires
                n == low + high * 0x80,
        ;
        assert(high * (0x80 * w) >= 0x80 * w) by (nonlinear_arith)
            requires
                high >= 1,
                w >= 1,
        ;
        assert(varint(n).drop_first() =~= varint(high));
        assert(s.subrange(i as int + 1, (i + 1 + varint(high).len()) as int) =~= sub.drop_first());
        assert(low * w >= 0) by (nonlinear_arith)
            requires
                low >= 0,
                w >= 1,
        ;
        lemma_parse_from(s, i + 1, value + low * w, high);
    } else {
        assert(n * group_weight(i) >= 0) by (nonlinear_arith);
    }
}

/// A number is read back from the front of any bytes that begin with its encoding.
pub proof fn lemma_varint_round_trip(n: nat, s: Seq<u8>)
    requires
        n < 0x1_0000_0000,
        varint(n).len() <= s.len(),
        s.take(varint(n).len() as int) == varint(n),
    ensures
        parse_varint(s) == Ok::<(u32, nat), BlockError>((n as u32, varint(n).len())),
{
    reveal(parse_varint);
    assert(s.subrange(0, varint(n).len() as int) =~= varint(n));
    reveal_with_fuel(group_weight, 1);
    assert(n * 1 == n);
    lemma_parse_from(s, 0, 0, n);
}

/// The bytes of a number are its digits to the base 128, least significant first, none more than
/// needed; all but the last have their high bit set.
pub proof fn law_varint_digits(n: nat, i: int)
    requires
        0 <= i < varint(n).len(),
    ensures
        varint(n)[i] as int % 0x80 == (n as int / pow(128, i as nat)) % 128,
        varint(n)[i] >= 0x80 <==> i < varint(n).len() - 1,
        i > 0 && i == varint(n).len() - 1 ==> varint(n)[i] > 0,
    decreases n,
{
    reveal(pow);
    if n < 0x80 {
        assert(pow(128, 0) == 1);
        assert(n as int / 1 == n as int);
    } else if i == 0 {
        assert(pow(128, 0) == 1);
        assert(n as int / 1 == n as int);
        lemma_varint_some(n / 0x80);
    } else {
        let high = n / 0x80;
        law_varint_digits(high, i - 1);
        assert(varint(n)[i] == varint(high)[i - 1]);
        vstd::arithmetic::power::lemma_pow_positive(128, (i - 1) as nat);
        vstd::arithmetic::div_mod::lemma_div_denominator(n as int, 128, pow(128, (i - 1) as nat));
        if i - 1 == 0 {
            assert(varint(high).len() == 1 ==> high < 0x80) by {
                if high >= 0x80 {
                    lemma_varint_some(high / 0x80);
                }
            }
        }
    }
}

/// A number takes at least one byte.
proof fn lemma_varint_some(n: nat)
    ensures
        varint(n).len() >= 1,
{
}

/// Reading takes bytes up to the first without its high bit, at most five: their low seven bits
/// are the digits of the number, of which the 32 low-order bits are kept. Without such a byte
/// among the first five there is an error, which tells the end of the input from a sixth byte.
pub proof fn law_parse_varint(s: Seq<u8>, k: int)
    requires
        0 <= k <= s.len(),
        k <= 5,
        forall|i: int| 0 <= i < k ==> s[i] >= 0x80,
        k < 5 && k < s.len() ==> s[k] < 0x80,
    ensures
        k == s.len() ==> parse_varint(s) == Err::<(u32, nat), BlockError>(
            BlockError::UnexpectedEof,
        ),
        k == 5 < s.len() ==> parse_varint(s) == Err::<(u32, nat), BlockError>(
            BlockError::InvalidVarint,
        ),
        k < 5 && k < s.len() ==> parse_varint(s) == Ok::<(u32, nat), BlockError>(
            (
                ((s[0] as int % 0x80 + (if k >= 1 {
                    0x80 * (s[1] as int % 0x80)
                } else {
                    0
                }) + (if k >= 2 {
                    0x4000 * (s[2] as int % 0x80)
                } else {
                    0
                }) + (if k >= 3 {
                    0x20_0000 * (s[3] as int % 0x80)
                } else {
                    0
                }) + (if k >= 4 {
                    0x1000_0000 * (s[4] as int % 0x80)
                } else {
                    0
                })) % 0x1_0000_0000) as u32,
                (k + 1) as nat,
            ),
        ),
{
    reveal(parse_varint);
    lemma_groups(s, k, 0, 0);
}

/// Continues `law_parse_varint` after `i` bytes that gave `value` so far.
proof fn lemma_groups(s: Seq<u8>, k: int, i: int, value: nat)
    requires
        0 <= i <= k <= s.len(),
        k <= 5,
        forall|j: int| 0 <= j < k ==> s[j] >= 0x80,
        k < 5 && k < s.len() ==> s[k] < 0x80,
        value < group_weight(i as nat),
        i <= 4 || value < 0x1_0000_0000,
    ensures
        k == s.len() ==> parse_varint_from(s, i as nat, value) == Err::<(u32, nat), BlockError>(
            BlockError::UnexpectedEof,
        ),
        k == 5 < s.len() ==> parse_varint_from(s, i as nat, value) == Err::<
            (u32, nat),
            BlockError,
        >(BlockError::InvalidVarint),
        k < 5 && k < s.len() ==> parse_varint_from(s, i as nat, value) == Ok::<
            (u32, nat),
            BlockError,
        >(
            (
                ((value + (if i <= 0 {
                    s[0] as int % 0x80
                } else {
                    0
                }) + (if i <= 1 && k >= 1 {
                    0x80 * (s[1] as int % 0x80)
                } else {
                    0
                }) + (if i <= 2 && k >= 2 {
                    0x4000 * (s[2] as int % 0x80)
                } else {
                    0
                }) + (if i <= 3 && k >= 3 {
                    0x20_0000 * (s[3] as int % 0x80)
                } else {
                    0
                }) + (if i <= 4 && k >= 4 {
                    0x1000_0000 * (s[4] as int % 0x80)
                } else {
                    0
                })) % 0x1_0000_0000) as u32,
                (k + 1) as nat,
            ),
        ),
    decreases k - i,
{
    reveal_with_fuel(group_weight, 6);
    if i < k {
        let w = group_weight(i as nat);
        let d = (s[i] % 0x80) as nat;
        let grown = (value + d * w) % 0x1_0000_0000;
        if i < 4 {
            assert(d * w <= 0x7f * w) by (nonlinear_arith)
                requires
                    d <= 0x7f,
            ;
            assert(d * w >= 0) by (nonlinear_arith);
            assert(grown == value + d * w);
            assert(grown < 0x80 * w);
        }
        lemma_weigh(i as nat, d);
        lemma_groups(s, k, i + 1, grown);
    } else if k < 5 && k < s.len() {
        lemma_weigh(i as nat, (s[i] % 0x80) as nat);
    }
}

/// The weights of the five groups.
proof fn lemma_weigh(i: nat, d: nat)
    requires
        i <= 4,
    ensures
        d * group_weight(i) == if i == 0 {
            d
        } else if i == 1 {
            0x80 * d
        } else if i == 2 {
            0x4000 * d
        } else if i == 3 {
            0x20_0000 * d
        } else {
            0x1000_0000 * d
        },
{
    reveal_with_fuel(group_weight, 6);
    let w = group_weight(i);
    assert(w == if i == 0 {
        1
    } else if i == 1 {
        0x80
    } else if i == 2 {
        0x4000
    } else if i == 3 {
        0x20_0000
    } else {
        0x1000_0000nat
    });
    assert(d * w == w * d) by (nonlinear_arith);
}

/// Reading never runs past the end of the input.
pub proof fn lemma_parse_varint_bounds(s: Seq<u8>)
    ensures
        parse_varint(s) matches Ok((_, used)) ==> 1 <= used <= s.len() && used <= 5,
{
    reveal(parse_varint);
    reveal_with_fuel(parse_varint_from, 6);
}

/// Appends the bytes of `val` to `buf` and returns how many there are.
pub fn encode_varint(val: u32, buf: &mut Vec<u8>) -> (written: usize)
    ensures
        final(buf)@ == old(buf)@ + varint(val as nat),
        written as nat == varint(val as nat).len(),
{
    let start: usize = buf.len();
    let ghost before = buf@;
    let mut rest: u32 = val;
    while rest >= 0x80
        invariant
            buf@.len() >= start,
            start as nat == before.len(),
            buf@ + varint(rest as nat) == before + varint(val as nat),
        decreases rest,
    {
        let ghost shorter = buf@;
        buf.push((rest % 0x80 + 0x80) as u8);
        assert(buf@ + varint(rest as nat / 0x80) =~= shorter + varint(rest as nat));
        rest = rest / 0x80;
    }
    buf.push(rest as u8);
    assert(buf@ =~= before + varint(val as nat));
    buf.len() - start
}

/// Reads the number at the front of `data`. Returns it with the count of bytes it takes.
pub fn decode_varint(data: &[u8]) -> (r: Result<(u32, usize), BlockError>)
    ensures
        match r {
            Ok((n, used)) => parse_varint(data@) == Ok::<(u32, nat), BlockError>((n, used as nat)),
            Err(e) => parse_varint(data@) == Err::<(u32, nat), BlockError>(e),
        },
{
    proof {
        reveal(parse_varint);
    }
    let mut value: u64 = 0;
    let mut weight: u64 = 1;
    let mut i: usize = 0;
    while i < data.len()
        invariant
            i <= data@.len(),
            i <= 5,
            value < 0x1_0000_0000,
            i <= 4 ==> weight as nat == group_weight(i as nat) && weight <= 0x1000_0000,
            parse_varint(data@) == parse_varint_from(data@, i as nat, value as nat),
        decreases data@.len() - i,
    {
        if i >= 5 {
            return Err(BlockError::InvalidVarint);
        }
        let byte: u8 = data[i];
        let group: u64 = (byte % 0x80) as u64;
        assert(group * weight <= 0x7f * 0x1000_0000) by (nonlinear_arith)
            requires
                group <= 0x7f,
                weight <= 0x1000_0000,
        ;
        value = (value + group * weight) % 0x1_0000_0000;
        if byte < 0x80 {
            return Ok((value as u32, i + 1));
        }
        proof {
            reveal_with_fuel(group_weight, 6);
        }
        weight = weight * 0x80;
        i += 1;
    }
    Err(BlockError::UnexpectedEof)
}

} // verus!
