//! Rendering of numbers and fixed phrases as output bytes.

use vstd::prelude::*;

verus! {

/// The bytes of a text whose characters are all ASCII: one byte per
/// character, holding the character's code.
pub open spec fn ascii(s: Seq<char>) -> Seq<u8> {
    Seq::new(s.len(), |i: int| s[i] as u8)
}

/// The character `0`..`9` for a digit below ten.
pub open spec fn digit(d: int) -> u8 {
    (48 + d) as u8
}

/// The decimal numeral of `n`, most significant digit first, without
/// leading zeros (`0` itself is one digit).
pub open spec fn decimal(n: nat) -> Seq<u8>
    decreases n,
{
    if n < 10 {
        seq![digit(n as int)]
    } else {
        decimal(n / 10).push(digit((n % 10) as int))
    }
}

/// The character `0`..`9`, `a`..`f` for a hexadecimal digit.
pub open spec fn hex_digit(d: int) -> u8 {
    if d < 10 {
        (48 + d) as u8
    } else {
        (87 + d) as u8
    }
}

/// The lower-case hexadecimal numeral of an octet, one digit below sixteen
/// and two digits from there on.
pub open spec fn hex(b: u8) -> Seq<u8> {
    if b < 16 {
        seq![hex_digit(b as int)]
    } else {
        seq![hex_digit(b as int / 16), hex_digit(b as int % 16)]
    }
}

/// Appends a phrase of ASCII characters to `out`.
pub fn push_str(out: &mut Vec<u8>, s: &str)
    requires
        s.is_ascii(),
    ensures
        final(out)@ == old(out)@ + ascii(s@),
{
    broadcast use vstd::string::is_ascii_spec_bytes;

    let bytes = s.as_bytes();
    assert(bytes@ =~= ascii(s@));
    out.extend_from_slice(bytes);
}

/// Appends the decimal numeral of `n` to `out`.
pub fn push_decimal(out: &mut Vec<u8>, n: u64)
    ensures
        final(out)@ == old(out)@ + decimal(n as nat),
    decreases n,
{
    if n >= 10 {
        push_decimal(out, n / 10);
    }
    let d: u8 = (n % 10) as u8;
    out.push(48 + d);
    assert(final(out)@ =~= old(out)@ + decimal(n as nat));
}

/// Appends the hexadecimal numeral of an octet to `out`.
pub fn push_hex(out: &mut Vec<u8>, b: u8)
    ensures
        final(out)@ == old(out)@ + hex(b),
{
    if b >= 16 {
        out.push(hex_char(b / 16));
    }
    out.push(hex_char(b % 16));
    assert(final(out)@ =~= old(out)@ + hex(b));
}

fn hex_char(d: u8) -> (c: u8)
    requires
        d < 16,
    ensures
        c == hex_digit(d as int),
{
    if d < 10 {
        48 + d
    } else {
        87 + d
    }
}

} // verus!
