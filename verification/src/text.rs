//! Text building blocks: appending to a `String`, decimal and hexadecimal
//! digits, and the hyphenated UUID form.

use crate::bytes::bytes_eq;
use vstd::prelude::*;
use vstd::utf8::encode_utf8_decode_utf8;

verus! {

/// `String::push`: appends one character.
#[verifier::external_body]
pub(crate) fn push_char(out: &mut String, c: char)
    ensures
        final(out)@ == old(out)@.push(c),
{
    out.push(c);
}

/// `String::push_str`: appends a string slice.
#[verifier::external_body]
pub(crate) fn push_str(out: &mut String, s: &str)
    ensures
        final(out)@ == old(out)@ + s@,
{
    out.push_str(s);
}

/// The character of a decimal digit.
pub open spec fn digit_char(d: nat) -> char {
    ((d + 48) as u8) as char
}

/// The decimal digits of `v`, most significant first, with no leading zero.
pub open spec fn dec_digits(v: nat) -> Seq<char>
    decreases v,
{
    if v < 10 {
        seq![digit_char(v)]
    } else {
        dec_digits(v / 10).push(digit_char(v % 10))
    }
}

/// The decimal rendering of a signed integer, as `Display` writes it.
pub open spec fn int_text(v: int) -> Seq<char> {
    if v < 0 {
        seq!['-'] + dec_digits((-v) as nat)
    } else {
        dec_digits(v as nat)
    }
}

/// The lowercase character of a hexadecimal digit.
pub open spec fn hex_char(d: nat) -> char {
    if d < 10 {
        ((d + 48) as u8) as char
    } else {
        ((d + 87) as u8) as char
    }
}

/// The `n` low-order hexadecimal digits of `v`, lowercase, most significant
/// first.
pub open spec fn hex_digits(v: nat, n: nat) -> Seq<char>
    decreases n,
{
    if n == 0 {
        Seq::empty()
    } else {
        hex_digits(v / 16, (n - 1) as nat).push(hex_char(v % 16))
    }
}

/// The hyphenated lowercase form of a UUID, `xxxxxxxx-xxxx-xxxx-xxxx-xxxxxxxxxxxx`.
pub open spec fn uuid_text(v: u128) -> Seq<char> {
    let w = v as nat;
    hex_digits(w / 0x1_0000_0000_0000_0000_0000_0000, 8) + seq!['-'] + hex_digits(
        w / 0x1_0000_0000_0000_0000_0000,
        4,
    ) + seq!['-'] + hex_digits(w / 0x1_0000_0000_0000_0000, 4) + seq!['-'] + hex_digits(
        w / 0x1_0000_0000_0000,
        4,
    ) + seq!['-'] + hex_digits(w, 12)
}

/// `uuid::Uuid::from_u128(v).hyphenated().to_string()`: the 32 lowercase hex
/// digits of the value, grouped 8-4-4-4-12 with hyphens.
#[verifier::external_body]
pub(crate) fn uuid_hyphenated(v: u128) -> (s: String)
    ensures
        s@ == uuid_text(v),
{
    uuid::Uuid::from_u128(v).hyphenated().to_string()
}

/// The character of decimal digit `d`.
pub fn digit(d: u8) -> (c: char)
    requires
        d < 10,
    ensures
        c == digit_char(d as nat),
{
    (d + 48) as char
}

/// Appends the decimal digits of `v`.
pub fn push_decimal(out: &mut String, v: u128)
    ensures
        final(out)@ == old(out)@ + dec_digits(v as nat),
    decreases v,
{
    if v >= 10 {
        push_decimal(out, v / 10);
    }
    push_char(out, digit((v % 10) as u8));
    proof {
        if v >= 10 {
            assert(final(out)@ =~= old(out)@ + dec_digits(v as nat));
        } else {
            assert(final(out)@ =~= old(out)@ + dec_digits(v as nat));
        }
    }
}

/// Appends the decimal rendering of a signed integer.
pub fn push_signed_decimal(out: &mut String, v: i128)
    ensures
        final(out)@ == old(out)@ + int_text(v as int),
{
    if v < 0 {
        push_char(out, '-');
        let magnitude: u128 = ((-(v + 1)) as u128) + 1;
        push_decimal(out, magnitude);
        assert(final(out)@ =~= old(out)@ + int_text(v as int));
    } else {
        push_decimal(out, v as u128);
    }
}


/// Whether two strings hold the same characters.
pub fn str_eq(a: &str, b: &str) -> (r: bool)
    ensures
        r == (a@ == b@),
{
    let r = bytes_eq(a.as_bytes(), b.as_bytes());
    proof {
        encode_utf8_decode_utf8(a@);
        encode_utf8_decode_utf8(b@);
    }
    r
}
} // verus!
