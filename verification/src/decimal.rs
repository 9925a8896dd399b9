//! Decimal notation for unsigned numbers.

use vstd::prelude::*;
use vstd::string::StringExecFns;

verus! {

/// The character that stands for a single decimal digit.
pub open spec fn digit_char(d: nat) -> char
    recommends
        d < 10,
{
    if d == 0 {
        '0'
    } else if d == 1 {
        '1'
    } else if d == 2 {
        '2'
    } else if d == 3 {
        '3'
    } else if d == 4 {
        '4'
    } else if d == 5 {
        '5'
    } else if d == 6 {
        '6'
    } else if d == 7 {
        '7'
    } else if d == 8 {
        '8'
    } else {
        '9'
    }
}

/// The decimal notation of `n`: most significant digit first, no sign, no
/// padding, and a single `0` for zero.
pub open spec fn decimal(n: nat) -> Seq<char>
    decreases n,
{
    if n < 10 {
        seq![digit_char(n)]
    } else {
        decimal(n / 10).push(digit_char(n % 10))
    }
}

/// The decimal notations of the bytes of `bytes`, written one after another
/// with nothing in between.
pub open spec fn decimal_concat(bytes: Seq<u8>) -> Seq<char>
    decreases bytes.len(),
{
    if bytes.len() == 0 {
        Seq::<char>::empty()
    } else {
        decimal_concat(bytes.drop_last()) + decimal(bytes.last() as nat)
    }
}

/// The digits that are still to be written in front of what has been written:
/// none once the rest has reached zero.
spec fn leading_digits(rest: nat) -> Seq<char> {
    if rest == 0 {
        Seq::<char>::empty()
    } else {
        decimal(rest)
    }
}

/// Splitting off the last digit of a positive number leaves the digits in
/// front of it.
proof fn lemma_leading_digits_step(rest: nat)
    requires
        rest > 0,
    ensures
        leading_digits(rest) == leading_digits(rest / 10).push(digit_char(rest % 10)),
{
    if rest < 10 {
        assert(rest / 10 == 0);
        assert(rest % 10 == rest);
        assert(decimal(rest) =~= Seq::<char>::empty().push(digit_char(rest)));
    }
}

/// The one-character string of a decimal digit.
fn digit_str(d: u32) -> (s: &'static str)
    requires
        d < 10,
    ensures
        s@ == seq![digit_char(d as nat)],
{
    proof {
        reveal_strlit("0");
        reveal_strlit("1");
        reveal_strlit("2");
        reveal_strlit("3");
        reveal_strlit("4");
        reveal_strlit("5");
        reveal_strlit("6");
        reveal_strlit("7");
        reveal_strlit("8");
        reveal_strlit("9");
    }
    let s = if d == 0 {
        "0"
    } else if d == 1 {
        "1"
    } else if d == 2 {
        "2"
    } else if d == 3 {
        "3"
    } else if d == 4 {
        "4"
    } else if d == 5 {
        "5"
    } else if d == 6 {
        "6"
    } else if d == 7 {
        "7"
    } else if d == 8 {
        "8"
    } else {
        "9"
    };
    assert(s@ =~= seq![digit_char(d as nat)]);
    s
}

/// Writes a number in decimal notation.
pub fn to_decimal(n: u32) -> (text: String)
    ensures
        text@ == decimal(n as nat),
{
    let mut text = digit_str(n % 10).to_owned();
    let mut rest: u32 = n / 10;
    proof {
        if n > 0 {
            lemma_leading_digits_step(n as nat);
        }
        assert(decimal(n as nat) =~= leading_digits(rest as nat) + text@);
    }
    while rest > 0
        invariant
            decimal(n as nat) == leading_digits(rest as nat) + text@,
        decreases rest,
    {
        let digit = digit_str(rest % 10);
        proof {
            lemma_leading_digits_step(rest as nat);
            assert(leading_digits(rest as nat) + text@ =~= leading_digits((rest / 10) as nat) + (
            digit@ + text@));
        }
        text = digit.to_owned().concat(text.as_str());
        rest = rest / 10;
    }
    assert(leading_digits(0) + text@ =~= text@);
    text
}

/// Writes each byte in decimal notation and joins the results with nothing
/// in between.
pub fn to_decimal_concat(bytes: &[u8]) -> (text: String)
    ensures
        text@ == decimal_concat(bytes@),
{
    let mut text = String::new();
    let mut i: usize = 0;
    while i < bytes.len()
        invariant
            i <= bytes.len(),
            text@ == decimal_concat(bytes@.take(i as int)),
        decreases bytes.len() - i,
    {
        let part = to_decimal(bytes[i] as u32);
        proof {
            let next = bytes@.take(i + 1);
            assert(next.drop_last() =~= bytes@.take(i as int));
            assert(next.last() == bytes@[i as int]);
        }
        text.append(part.as_str());
        i = i + 1;
    }
    assert(bytes@.take(bytes.len() as int) =~= bytes@);
    text
}

} // verus!
