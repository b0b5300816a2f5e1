//! Scalar leaf rendering shared by the JSON and YAML writers: the one place
//! that fixes each scalar's textual form, and the only lossy step of an export.
//!
//! Numbers and booleans are written verbatim; `null` covers null and the
//! non-finite floats; everything else is double-quoted: dates and times as
//! ISO 8601 / RFC 3339, a UUID hyphenated, raw bytes as Base64. A duration is
//! written as its (possibly fractional) number of seconds, a big integer as its
//! decimal digits, a big float as its decimal literal (`null` when not
//! finite), and a rational quoted as `num/den`.
//!
//! The decimal form of a finite float is the host's: a writer receives it as a
//! closure from float bits to text, and its contract holds for every spec
//! function that describes that closure.

use crate::export::base64::{base64_text, encode};
use crate::export::string::{quote, quoted};
use crate::bignum::{
    bigfloat_display, bigfloat_text, bigint_text, BigFloatParts, BigFloatView, BigIntParts,
    RationalParts,
};
use crate::scalar::{Scalar, ScalarView};
use crate::temporal::{chrono_day_valid, day_number_valid, time_of_day_parts_valid, time_of_day_valid, Duration};
use crate::text::{
    dec_digits, digit, digit_char, int_text, push_char, push_decimal, push_signed_decimal,
    push_str, uuid_hyphenated, uuid_text,
};
use vstd::prelude::*;

verus! {

/// The bit pattern of a finite float, as handed to the host for rendering.
#[derive(Clone, Copy, Debug, PartialEq, Eq)]
pub enum FloatBits {
    /// A 32-bit float's IEEE-754 bits.
    F32(u32),
    /// A 64-bit float's IEEE-754 bits.
    F64(u64),
}

/// A 32-bit float bit pattern is finite: its exponent is not all ones.
pub open spec fn finite32(bits: u32) -> bool {
    (bits as nat / 0x80_0000) % 0x100 != 0xff
}

/// A 64-bit float bit pattern is finite: its exponent is not all ones.
pub open spec fn finite64(bits: u64) -> bool {
    (bits as nat / 0x10_0000_0000_0000) % 0x800 != 0x7ff
}

/// `ft` gives the text every call of `f` returns.
pub open spec fn renders<F: Fn(FloatBits) -> String>(
    f: F,
    ft: spec_fn(FloatBits) -> Seq<char>,
) -> bool {
    forall|x: FloatBits, r: String| #[trigger] f.ensures((x,), r) ==> r@ == ft(x)
}

/// `v` renders without the float renderer: it is not a finite float (a
/// non-finite one renders as `null`).
pub open spec fn float_text_free(v: ScalarView) -> bool {
    match v {
        ScalarView::F32(bits) => !finite32(bits),
        ScalarView::F64(bits) => !finite64(bits),
        _ => true,
    }
}

/// A float renderer that gives no text: what float-free renderings are stated
/// with, since they never call it.
pub open spec fn no_float_text() -> spec_fn(FloatBits) -> Seq<char> {
    |x: FloatBits| Seq::<char>::empty()
}

/// The text a renderer gives is fixed by `ft`: either `ft` gives what `f`
/// returns, or (`free`) the rendering asks `f` for nothing.
pub open spec fn text_fixed<F: Fn(FloatBits) -> String>(
    f: F,
    ft: spec_fn(FloatBits) -> Seq<char>,
    free: bool,
) -> bool {
    free || renders(f, ft)
}

/// `f` accepts every float.
pub open spec fn total<F: Fn(FloatBits) -> String>(f: F) -> bool {
    forall|x: FloatBits| #[trigger] f.requires((x,))
}

/// `chrono::NaiveDate`'s `Display` of the date with day number `days`
/// (`YYYY-MM-DD`).
pub uninterp spec fn date_display(days: i32) -> Seq<char>;

/// The fraction `NaiveTime`'s `Display` writes for `nano` nanoseconds: none
/// at zero, else three, six or nine digits, the fewest that are exact.
pub open spec fn nano_fraction(nano: nat) -> Seq<char> {
    if nano == 0 {
        Seq::empty()
    } else if nano % 1_000_000 == 0 {
        seq!['.'] + dec_fixed(nano / 1_000_000, 3)
    } else if nano % 1_000 == 0 {
        seq!['.'] + dec_fixed(nano / 1_000, 6)
    } else {
        seq!['.'] + dec_fixed(nano, 9)
    }
}

/// `chrono::NaiveTime`'s `Display` of a time of day: `HH:MM:SS`, then the
/// fraction; a leap second (nanoseconds past one second) shows as second 60.
pub open spec fn time_display(secs: u32, nanos: u32) -> Seq<char> {
    let leap = nanos >= 1_000_000_000;
    let sec: nat = (secs % 60 + if leap {
        1int
    } else {
        0int
    }) as nat;
    let nano: nat = (if leap {
        nanos - 1_000_000_000
    } else {
        nanos as int
    }) as nat;
    dec_fixed((secs / 3600) as nat, 2) + seq![':'] + dec_fixed(((secs / 60) % 60) as nat, 2) + seq![
        ':',
    ] + dec_fixed(sec, 2) + nano_fraction(nano)
}

/// `chrono::DateTime<Utc>::to_rfc3339` of a UTC date and time.
pub uninterp spec fn datetime_display(days: i32, secs: u32, nanos: u32) -> Seq<char>;

/// `NaiveDate::from_num_days_from_ce_opt(days)` rendered with `to_string`: the
/// ISO 8601 calendar date.
#[verifier::external_body]
fn date_string(days: i32) -> (s: String)
    requires
        chrono_day_valid(days),
    ensures
        s@ == date_display(days),
{
    chrono::NaiveDate::from_num_days_from_ce_opt(days).unwrap().to_string()
}

/// `NaiveTime::from_num_seconds_from_midnight_opt(secs, nanos)` rendered with
/// `to_string`.
#[verifier::external_body]
fn time_string(secs: u32, nanos: u32) -> (s: String)
    requires
        time_of_day_valid(secs, nanos),
    ensures
        s@ == time_display(secs, nanos),
{
    chrono::NaiveTime::from_num_seconds_from_midnight_opt(secs, nanos).unwrap().to_string()
}

/// The UTC date-time of that day and time of day, rendered by
/// `DateTime::<Utc>::to_rfc3339`.
#[verifier::external_body]
fn datetime_string(days: i32, secs: u32, nanos: u32) -> (s: String)
    requires
        chrono_day_valid(days),
        time_of_day_valid(secs, nanos),
    ensures
        s@ == datetime_display(days, secs, nanos),
{
    let date = chrono::NaiveDate::from_num_days_from_ce_opt(days).unwrap();
    let time = chrono::NaiveTime::from_num_seconds_from_midnight_opt(secs, nanos).unwrap();
    chrono::NaiveDateTime::new(date, time).and_utc().to_rfc3339()
}

/// `10` to the power `n`.
pub open spec fn pow10(n: nat) -> nat
    decreases n,
{
    if n == 0 {
        1
    } else {
        10 * pow10((n - 1) as nat)
    }
}

/// The `k` low-order decimal digits of `v`, zero-padded, most significant
/// first.
pub open spec fn dec_fixed(v: nat, k: nat) -> Seq<char>
    decreases k,
{
    if k == 0 {
        Seq::empty()
    } else {
        dec_fixed(v / 10, (k - 1) as nat).push(digit_char(v % 10))
    }
}

/// `s` without its trailing `'0'` characters.
pub open spec fn trim_zeros(s: Seq<char>) -> Seq<char>
    decreases s.len(),
{
    if s.len() > 0 && s.last() == '0' {
        trim_zeros(s.drop_last())
    } else {
        s
    }
}

/// A duration as a decimal number of seconds: an integer when there is no
/// sub-second part, else the nine-digit fraction without its trailing zeros.
pub open spec fn duration_text(d: Duration) -> Seq<char> {
    if d.nanos == 0 {
        int_text(d.secs as int)
    } else {
        let sign = if d.secs < 0 || d.nanos < 0 {
            seq!['-']
        } else {
            Seq::empty()
        };
        let secs: nat = if d.secs < 0 {
            (-d.secs) as nat
        } else {
            d.secs as nat
        };
        let nanos: nat = if d.nanos < 0 {
            (-d.nanos) as nat
        } else {
            d.nanos as nat
        };
        sign + dec_digits(secs) + seq!['.'] + trim_zeros(dec_fixed(nanos, 9))
    }
}

/// A scalar every part of which can be rendered: its dates and times are ones
/// the calendar holds, and a duration's sub-second part is under a second.
pub open spec fn scalar_renderable(v: ScalarView) -> bool {
    match v {
        ScalarView::Date(d) => chrono_day_valid(d),
        ScalarView::Time(t) => time_of_day_valid(t.secs, t.nanos),
        ScalarView::DateTime(dt) => chrono_day_valid(dt.days) && time_of_day_valid(
            dt.time.secs,
            dt.time.nanos,
        ),
        ScalarView::Duration(d) => -1_000_000_000 < d.nanos < 1_000_000_000,
        _ => true,
    }
}

/// Whether `scalar` can be rendered (see [`scalar_renderable`]).
pub fn scalar_is_renderable(scalar: &Scalar) -> (b: bool)
    ensures
        b == scalar_renderable(scalar@),
{
    match scalar {
        Scalar::Date(days) => day_number_valid(*days),
        Scalar::Time(t) => time_of_day_parts_valid(t.secs, t.nanos),
        Scalar::DateTime(dt) => day_number_valid(dt.days) && time_of_day_parts_valid(
            dt.time.secs,
            dt.time.nanos,
        ),
        Scalar::Duration(d) => -1_000_000_000 < d.nanos && d.nanos < 1_000_000_000,
        _ => true,
    }
}

/// The text of a scalar, with `ft` giving the decimal form of finite floats.
pub open spec fn scalar_text(v: ScalarView, ft: spec_fn(FloatBits) -> Seq<char>) -> Seq<char> {
    match v {
        ScalarView::Null => "null"@,
        ScalarView::Bool(b) => if b {
            "true"@
        } else {
            "false"@
        },
        ScalarView::I8(x) => int_text(x as int),
        ScalarView::I16(x) => int_text(x as int),
        ScalarView::I32(x) => int_text(x as int),
        ScalarView::I64(x) => int_text(x as int),
        ScalarView::I128(x) => int_text(x as int),
        ScalarView::U8(x) => int_text(x as int),
        ScalarView::U16(x) => int_text(x as int),
        ScalarView::U32(x) => int_text(x as int),
        ScalarView::U64(x) => int_text(x as int),
        ScalarView::U128(x) => int_text(x as int),
        ScalarView::F32(bits) => if finite32(bits) {
            ft(FloatBits::F32(bits))
        } else {
            "null"@
        },
        ScalarView::F64(bits) => if finite64(bits) {
            ft(FloatBits::F64(bits))
        } else {
            "null"@
        },
        ScalarView::Str(s) => quoted(s),
        ScalarView::Bytes(b) => quoted(base64_text(b)),
        ScalarView::Uuid(x) => quoted(uuid_text(x)),
        ScalarView::Date(d) => quoted(date_display(d)),
        ScalarView::Time(t) => quoted(time_display(t.secs, t.nanos)),
        ScalarView::DateTime(dt) => quoted(datetime_display(dt.days, dt.time.secs, dt.time.nanos)),
        ScalarView::Duration(d) => duration_text(d),
        ScalarView::BigInt(x) => int_text(x),
        ScalarView::BigFloat(f) => bigfloat_text_of(f),
        ScalarView::Rational(n, d) => quoted(int_text(n) + seq!['/'] + int_text(d)),
    }
}

/// The text of a big float: its decimal literal, or `null` for NaN and the
/// infinities, which share the float fallback.
pub open spec fn bigfloat_text_of(f: BigFloatView) -> Seq<char> {
    match f {
        BigFloatView::Finite { negative, exponent, mantissa } => bigfloat_display(
            negative,
            exponent,
            mantissa,
        ),
        BigFloatView::Zero => bigfloat_display(false, 0, Seq::empty()),
        _ => "null"@,
    }
}

/// Appends a big integer's decimal digits.
fn write_big_int(out: &mut String, v: &BigIntParts)
    ensures
        final(out)@ == old(out)@ + int_text(v@),
{
    let text = bigint_text(v);
    push_str(out, text.as_str());
}

/// Appends a rational quoted as `num/den`.
fn write_rational(out: &mut String, v: &RationalParts)
    ensures
        final(out)@ == old(out)@ + quoted(int_text(v.numer_value()) + seq!['/'] + int_text(
            v.denom_value(),
        )),
{
    let mut text = bigint_text(v.numer());
    push_char(&mut text, '/');
    let d = bigint_text(v.denom());
    push_str(&mut text, d.as_str());
    assert(text@ =~= int_text(v.numer_value()) + seq!['/'] + int_text(v.denom_value()));
    quote(out, text.as_str());
}

/// Appends a big float's rendering.
fn write_big_float(out: &mut String, v: &BigFloatParts)
    ensures
        final(out)@ == old(out)@ + bigfloat_text_of(v@),
{
    proof {
        reveal_strlit("null");
    }
    match v {
        BigFloatParts::Finite { negative, exponent, mantissa } => {
            let text = bigfloat_text(*negative, *exponent, mantissa.as_slice());
            push_str(out, text.as_str());
        },
        BigFloatParts::Zero => {
            let none: Vec<u8> = Vec::new();
            let text = bigfloat_text(false, 0, none.as_slice());
            assert(none@ =~= Seq::<u8>::empty());
            push_str(out, text.as_str());
        },
        _ => push_str(out, "null"),
    }
}

/// Whether a 32-bit float bit pattern is finite.
pub fn is_finite32(bits: u32) -> (b: bool)
    ensures
        b == finite32(bits),
{
    (bits / 0x80_0000) % 0x100 != 0xff
}

/// Whether a 64-bit float bit pattern is finite.
pub fn is_finite64(bits: u64) -> (b: bool)
    ensures
        b == finite64(bits),
{
    (bits / 0x10_0000_0000_0000) % 0x800 != 0x7ff
}

/// Appends the `k` low-order decimal digits of `v`, zero-padded.
fn push_fixed(out: &mut String, v: u32, k: u32)
    ensures
        final(out)@ == old(out)@ + dec_fixed(v as nat, k as nat),
    decreases k,
{
    if k > 0 {
        push_fixed(out, v / 10, k - 1);
        push_char(out, digit((v % 10) as u8));
        assert(final(out)@ =~= old(out)@ + dec_fixed(v as nat, k as nat));
    }
}

proof fn lemma_trim_step(v: nat, k: nat)
    requires
        k >= 1,
        v % 10 == 0,
    ensures
        trim_zeros(dec_fixed(v, k)) == trim_zeros(dec_fixed(v / 10, (k - 1) as nat)),
{
    let s = dec_fixed(v, k);
    assert(s.last() == '0');
    assert(s.drop_last() =~= dec_fixed(v / 10, (k - 1) as nat));
}

proof fn lemma_trim_stop(v: nat, k: nat)
    requires
        k >= 1,
        v % 10 != 0,
    ensures
        trim_zeros(dec_fixed(v, k)) == dec_fixed(v, k),
{
    let s = dec_fixed(v, k);
    assert(s.last() == digit_char(v % 10));
    assert(digit_char(v % 10) != '0');
}

/// Renders a duration as a decimal number of seconds, keeping a sub-second part
/// only when present (so a whole-second duration stays an integer).
pub fn duration_seconds(out: &mut String, d: Duration)
    requires
        -1_000_000_000 < d.nanos < 1_000_000_000,
    ensures
        final(out)@ == old(out)@ + duration_text(d),
{
    if d.nanos == 0 {
        push_signed_decimal(out, d.secs as i128);
        return;
    }
    let ghost start = out@;
    if d.secs < 0 || d.nanos < 0 {
        push_char(out, '-');
    }
    let ghost signed = out@;
    let secs: u128 = if d.secs < 0 {
        ((-(d.secs as i128)) as u128)
    } else {
        d.secs as u128
    };
    push_decimal(out, secs);
    push_char(out, '.');
    let nanos0: u32 = if d.nanos < 0 {
        (-d.nanos) as u32
    } else {
        d.nanos as u32
    };
    let mut nanos = nanos0;
    let mut width: u32 = 9;
    proof {
        reveal_with_fuel(pow10, 10);
    }
    while nanos % 10 == 0
        invariant
            0 < nanos < pow10(width as nat),
            1 <= width <= 9,
            trim_zeros(dec_fixed(nanos0 as nat, 9)) == trim_zeros(
                dec_fixed(nanos as nat, width as nat),
            ),
        decreases nanos,
    {
        proof {
            lemma_trim_step(nanos as nat, width as nat);
            assert(width >= 2) by {
                if width == 1 {
                    reveal_with_fuel(pow10, 2);
                }
            }
            assert(nanos / 10 < pow10((width - 1) as nat));
        }
        nanos = nanos / 10;
        width = width - 1;
    }
    proof {
        lemma_trim_stop(nanos as nat, width as nat);
    }
    push_fixed(out, nanos, width);
    assert(final(out)@ =~= old(out)@ + duration_text(d));
}

/// Appends `scalar`'s rendering to `out`; `float_text` renders finite floats.
pub fn write_scalar<F: Fn(FloatBits) -> String>(out: &mut String, scalar: &Scalar, float_text: &F)
    requires
        scalar_renderable(scalar@),
        total(*float_text),
    ensures
        forall|ft: spec_fn(FloatBits) -> Seq<char>| #[trigger]
            text_fixed(*float_text, ft, float_text_free(scalar@)) ==> final(out)@ == old(out)@
                + scalar_text(scalar@, ft),
        float_text_free(scalar@) ==> final(out)@ == old(out)@ + scalar_text(scalar@, no_float_text()),
{
    proof {
        reveal_strlit("null");
        reveal_strlit("true");
        reveal_strlit("false");
    }
    match scalar {
        Scalar::Null => push_str(out, "null"),
        Scalar::Bool(b) => {
            if *b {
                push_str(out, "true")
            } else {
                push_str(out, "false")
            }
        },
        Scalar::I8(v) => push_signed_decimal(out, *v as i128),
        Scalar::I16(v) => push_signed_decimal(out, *v as i128),
        Scalar::I32(v) => push_signed_decimal(out, *v as i128),
        Scalar::I64(v) => push_signed_decimal(out, *v as i128),
        Scalar::I128(v) => push_signed_decimal(out, *v),
        Scalar::U8(v) => push_decimal(out, *v as u128),
        Scalar::U16(v) => push_decimal(out, *v as u128),
        Scalar::U32(v) => push_decimal(out, *v as u128),
        Scalar::U64(v) => push_decimal(out, *v as u128),
        Scalar::U128(v) => push_decimal(out, *v),
        Scalar::F32(bits) => {
            if is_finite32(*bits) {
                let text = float_text(FloatBits::F32(*bits));
                push_str(out, text.as_str());
            } else {
                push_str(out, "null");
            }
        },
        Scalar::F64(bits) => {
            if is_finite64(*bits) {
                let text = float_text(FloatBits::F64(*bits));
                push_str(out, text.as_str());
            } else {
                push_str(out, "null");
            }
        },
        Scalar::Str(s) => quote(out, s.as_str()),
        Scalar::Bytes(b) => {
            let text = encode(b.as_slice());
            quote(out, text.as_str());
        },
        Scalar::Uuid(v) => {
            let text = uuid_hyphenated(*v);
            quote(out, text.as_str());
        },
        Scalar::Date(days) => {
            let text = date_string(*days);
            quote(out, text.as_str());
        },
        Scalar::Time(t) => {
            let text = time_string(t.secs, t.nanos);
            quote(out, text.as_str());
        },
        Scalar::DateTime(dt) => {
            let text = datetime_string(dt.days, dt.time.secs, dt.time.nanos);
            quote(out, text.as_str());
        },
        Scalar::Duration(d) => duration_seconds(out, *d),
        Scalar::BigInt(v) => write_big_int(out, v),
        Scalar::BigFloat(v) => write_big_float(out, v),
        Scalar::Rational(v) => write_rational(out, v),
    }
    proof {
        if float_text_free(scalar@) {
            assert(text_fixed(*float_text, no_float_text(), float_text_free(scalar@)));
        }
    }
}

} // verus!
