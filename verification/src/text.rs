//! Text for error messages: numbers written out in decimal and hexadecimal.

use vstd::prelude::*;

verus! {

/// The character for a digit below sixteen, upper case for ten and above.
pub open spec fn digit_char(d: nat) -> char {
    if d < 10 {
        (('0' as u8) + d as u8) as char
    } else {
        (('A' as u8) + (d - 10) as u8) as char
    }
}

/// `n` in decimal, without leading zeros.
pub open spec fn decimal(n: nat) -> Seq<char>
    decreases n,
{
    if n < 10 {
        seq![digit_char(n)]
    } else {
        decimal(n / 10).push(digit_char(n % 10))
    }
}

/// The `width` low-order hexadecimal digits of `n`, most significant first,
/// in upper case.
pub open spec fn hex_digits(n: nat, width: nat) -> Seq<char>
    decreases width,
{
    if width == 0 {
        Seq::empty()
    } else {
        hex_digits(n / 16, (width - 1) as nat).push(digit_char(n % 16))
    }
}

/// `format!("{}", n)`: std's `Display` for unsigned integers writes the
/// number in decimal without leading zeros.
#[verifier::external_body]
pub(crate) fn number_text(n: u128) -> (r: String)
    ensures
        r@ == decimal(n as nat),
{
    format!("{}", n)
}

/// `format!("{:016X}", n)`: std's `UpperHex` with width 16 and zero fill
/// writes all sixteen hexadecimal digits of a 64-bit number in upper case.
#[verifier::external_body]
pub(crate) fn hex_text(n: u64) -> (r: String)
    ensures
        r@ == hex_digits(n as nat, 16),
{
    format!("{:016X}", n)
}

/// `head` followed by `n` in decimal.
pub(crate) fn with_number(head: &str, n: u128) -> (r: String)
    ensures
        r@ == head@ + decimal(n as nat),
{
    let mut s = String::from_str(head);
    let digits = number_text(n);
    s.append(digits.as_str());
    s
}

/// `head`, `n` in decimal, then `tail`.
pub(crate) fn around_number(head: &str, n: u128, tail: &str) -> (r: String)
    ensures
        r@ == head@ + decimal(n as nat) + tail@,
{
    let mut s = with_number(head, n);
    s.append(tail);
    s
}

} // verus!
