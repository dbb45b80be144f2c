//! Numbers as text.

use vstd::prelude::*;

verus! {

/// The digit of a value below 16.
pub open spec fn digit(d: nat) -> char {
    if d < 10 {
        (0x30 + d) as char
    } else {
        (0x57 + d) as char
    }
}

/// A number in decimal, without leading zeros.
pub open spec fn decimal(n: nat) -> Seq<char>
    decreases n,
{
    if n < 10 {
        seq![digit(n)]
    } else {
        decimal(n / 10).push(digit(n % 10))
    }
}

/// A number in hexadecimal, with small letters and without leading zeros.
pub open spec fn hexadecimal(n: nat) -> Seq<char>
    decreases n,
{
    if n < 16 {
        seq![digit(n)]
    } else {
        hexadecimal(n / 16).push(digit(n % 16))
    }
}

/// A decimal is its digits from '0' to '9', the most significant first, without leading zeros.
pub proof fn law_decimal(n: nat)
    ensures
        n < 10 ==> decimal(n).len() == 1 && decimal(n)[0] as nat == '0' as nat + n,
        n >= 10 ==> decimal(n) == decimal(n / 10) + decimal(n % 10),
        n > 0 ==> decimal(n)[0] != '0',
    decreases n,
{
    if n >= 10 {
        law_decimal(n / 10);
        lemma_decimal_some(n / 10);
        assert(decimal(n) =~= decimal(n / 10) + decimal(n % 10));
    }
}

proof fn lemma_decimal_some(n: nat)
    ensures
        decimal(n).len() >= 1,
{
}

/// A hexadecimal is its digits from '0' to '9' and 'a' to 'f', the most significant first, without
/// leading zeros.
pub proof fn law_hexadecimal(n: nat)
    ensures
        n < 10 ==> hexadecimal(n).len() == 1 && hexadecimal(n)[0] as nat == '0' as nat + n,
        10 <= n < 16 ==> hexadecimal(n).len() == 1 && hexadecimal(n)[0] as nat == 'a' as nat + (n
            - 10),
        n >= 16 ==> hexadecimal(n) == hexadecimal(n / 16) + hexadecimal(n % 16),
        n > 0 ==> hexadecimal(n)[0] != '0',
    decreases n,
{
    if n >= 16 {
        law_hexadecimal(n / 16);
        lemma_hexadecimal_some(n / 16);
        assert(hexadecimal(n) =~= hexadecimal(n / 16) + hexadecimal(n % 16));
    }
}

proof fn lemma_hexadecimal_some(n: nat)
    ensures
        hexadecimal(n).len() >= 1,
{
}

/// The text of a digit.
fn digit_text(d: u64) -> (text: &'static str)
    requires
        d < 16,
    ensures
        text@ == seq![digit(d as nat)],
{
    proof {
        reveal_strlit("0");
        reveal_strlit("1");
        reveal_strlit("2");
        reveal_strlit("3");
        reveal_strlit("4");
        reveal_strlit("5");
        reveal_strlit("6");
        reveal_strlit("7");
        reveal_strlit("8");
        reveal_strlit("9");
        reveal_strlit("a");
        reveal_strlit("b");
        reveal_strlit("c");
        reveal_strlit("d");
        reveal_strlit("e");
        reveal_strlit("f");
    }
    let text: &'static str = match d {
        0 => "0",
        1 => "1",
        2 => "2",
        3 => "3",
        4 => "4",
        5 => "5",
        6 => "6",
        7 => "7",
        8 => "8",
        9 => "9",
        10 => "a",
        11 => "b",
        12 => "c",
        13 => "d",
        14 => "e",
        _ => "f",
    };
    assert(text@ =~= seq![digit(d as nat)]);
    text
}

/// Appends a number in decimal.
pub fn append_decimal(text: &mut String, n: u64)
    ensures
        final(text)@ == old(text)@ + decimal(n as nat),
    decreases n,
{
    if n >= 10 {
        append_decimal(text, n / 10);
    }
    text.append(digit_text(n % 10));
    assert(text@ =~= old(text)@ + decimal(n as nat));
}

/// Appends a number in hexadecimal.
pub fn append_hexadecimal(text: &mut String, n: u64)
    ensures
        final(text)@ == old(text)@ + hexadecimal(n as nat),
    decreases n,
{
    if n >= 16 {
        append_hexadecimal(text, n / 16);
    }
    text.append(digit_text(n % 16));
    assert(text@ =~= old(text)@ + hexadecimal(n as nat));
}

} // verus!
