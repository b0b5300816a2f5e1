//! Order-preserving encoding of scalar values for index keys.
//!
//! A `Scalar` is encoded so that the bytewise (`memcmp`) order of two encodings
//! matches the values' order — the property index keys rely on, since the engine
//! compares index keys bytewise. Each encoding is a 1-byte type tag followed by
//! an order-preserving, self-delimiting body, so per-column encodings
//! concatenate into a composite key and still compare correctly. A descending
//! column is the bitwise complement of its ascending encoding.
//!
//! This is encode-only: index queries build key prefixes to scan; they never
//! decode column values back.

use crate::bytes::{
    be_bytes, complement, diverge_at, lemma_be_bytes_len, lemma_be_order,
    lemma_be_value_of_bytes, lemma_lex_asym, lemma_lex_sorts_before, lemma_lex_total,
    lemma_pow256_values, lemma_sorts_before_complement, lemma_sorts_before_lex,
    lemma_sorts_before_not_prefix, lemma_sorts_before_prepend, lex_lt, pow256, sorts_before,
};
use crate::bignum::{
    lemma_len_bytes_count_bound, abs, bigint_magnitude, bigint_sign, cf_terms, continued_fraction, ints_view, len_bytes_count,
    magnitude_bytes, reduced, BigFloatParts, BigFloatView, BigIntParts, RationalParts,
};
use crate::codec::{append_bytes, push_be};
use vstd::arithmetic::div_mod::lemma_fundamental_div_mod;
use crate::scalar::{
    Scalar, ScalarView, BOOL_TAG, BYTES_TAG, DATETIME_TAG, DATE_TAG, DURATION_TAG, F32_TAG, F64_TAG,
    I128_TAG, I16_TAG, I32_TAG, I64_TAG, I8_TAG, NULL_TAG, STR_TAG, TIME_TAG, U128_TAG, U16_TAG,
    U32_TAG, U64_TAG, U8_TAG, UUID_TAG, BIG_INT_TAG, RATIONAL_TAG,
};
use crate::temporal::{duration_total, TimeOfDay};
use vstd::prelude::*;
use vstd::utf8::encode_utf8;

verus! {

// ---------------------------------------------------------------------------
// The encoding, as a function of the value
// ---------------------------------------------------------------------------

/// One content byte of an order-preserving byte string: `0x00` is escaped as
/// `0x00 0xFF`, every other byte stands for itself.
pub open spec fn escape_byte(b: u8) -> Seq<u8> {
    if b == 0 {
        seq![0u8, 0xFFu8]
    } else {
        seq![b]
    }
}

/// The escaped content of a byte string.
pub open spec fn escaped(s: Seq<u8>) -> Seq<u8>
    decreases s.len(),
{
    if s.len() == 0 {
        Seq::empty()
    } else {
        escape_byte(s[0]) + escaped(s.drop_first())
    }
}

/// Order-preserving, self-delimiting byte string: escaped content followed by
/// the two-byte terminator `0x00 0x01`.
pub open spec fn ordered_bytes_of(s: Seq<u8>) -> Seq<u8> {
    escaped(s) + seq![0u8, 1u8]
}

/// A signed `n`-byte integer with its sign bit flipped: the value plus
/// `2^(8n-1)`, big-endian, so that two's-complement order becomes byte order.
pub open spec fn offset_field(v: int, n: nat) -> Seq<u8> {
    be_bytes((v + pow256(n) / 2) as nat, n)
}

/// IEEE-754 total-order key of a 32-bit pattern: negatives (sign bit set) are
/// fully inverted, non-negatives get the sign bit set.
pub open spec fn float32_key(bits: u32) -> nat {
    if bits >= 0x8000_0000 {
        (0xFFFF_FFFF - bits) as nat
    } else {
        (bits + 0x8000_0000) as nat
    }
}

/// IEEE-754 total-order key of a 64-bit pattern.
pub open spec fn float64_key(bits: u64) -> nat {
    if bits >= 0x8000_0000_0000_0000 {
        (0xFFFF_FFFF_FFFF_FFFF - bits) as nat
    } else {
        (bits + 0x8000_0000_0000_0000) as nat
    }
}

/// A time of day: seconds since midnight, then the nanosecond part.
pub open spec fn clock_field(t: TimeOfDay) -> Seq<u8> {
    be_bytes(t.secs as nat, 4) + be_bytes(t.nanos as nat, 4)
}

/// The ascending order-preserving encoding of a scalar.
pub open spec fn ascending_bytes(v: ScalarView) -> Seq<u8> {
    match v {
        ScalarView::Null => seq![NULL_TAG],
        ScalarView::Bool(b) => seq![BOOL_TAG, if b { 1u8 } else { 0u8 }],
        ScalarView::I8(x) => seq![I8_TAG] + offset_field(x as int, 1),
        ScalarView::I16(x) => seq![I16_TAG] + offset_field(x as int, 2),
        ScalarView::I32(x) => seq![I32_TAG] + offset_field(x as int, 4),
        ScalarView::I64(x) => seq![I64_TAG] + offset_field(x as int, 8),
        ScalarView::I128(x) => seq![I128_TAG] + offset_field(x as int, 16),
        ScalarView::U8(x) => seq![U8_TAG, x],
        ScalarView::U16(x) => seq![U16_TAG] + be_bytes(x as nat, 2),
        ScalarView::U32(x) => seq![U32_TAG] + be_bytes(x as nat, 4),
        ScalarView::U64(x) => seq![U64_TAG] + be_bytes(x as nat, 8),
        ScalarView::U128(x) => seq![U128_TAG] + be_bytes(x as nat, 16),
        ScalarView::F32(x) => seq![F32_TAG] + be_bytes(float32_key(x), 4),
        ScalarView::F64(x) => seq![F64_TAG] + be_bytes(float64_key(x), 8),
        ScalarView::Str(s) => seq![STR_TAG] + ordered_bytes_of(encode_utf8(s)),
        ScalarView::Bytes(b) => seq![BYTES_TAG] + ordered_bytes_of(b),
        ScalarView::Uuid(x) => seq![UUID_TAG] + be_bytes(x as nat, 16),
        ScalarView::Date(d) => seq![DATE_TAG] + offset_field(d as int, 4),
        ScalarView::Time(t) => seq![TIME_TAG] + clock_field(t),
        ScalarView::DateTime(dt) => seq![DATETIME_TAG] + offset_field(dt.days as int, 4)
            + clock_field(dt.time),
        ScalarView::Duration(d) => seq![DURATION_TAG] + offset_field(duration_total(d), 16),
        ScalarView::BigInt(x) => seq![BIG_INT_TAG] + signed_int_bytes(x),
        ScalarView::BigFloat(f) => bigfloat_ascending_bytes(f),
        ScalarView::Rational(n, d) => rational_ascending_bytes(n, d),
    }
}

// ---------------------------------------------------------------------------
// The big-number encodings
// ---------------------------------------------------------------------------

/// Index tags of the big-float classes, in value order (NaN parked on top).
pub const BIG_FLOAT_NEG_INF_KEY: u8 = 22;
pub const BIG_FLOAT_NEG_KEY: u8 = 23;
pub const BIG_FLOAT_ZERO_KEY: u8 = 24;
pub const BIG_FLOAT_POS_KEY: u8 = 25;
pub const BIG_FLOAT_POS_INF_KEY: u8 = 26;
pub const BIG_FLOAT_NAN_KEY: u8 = 27;

/// A self-delimiting unsigned run: the number of bytes of its length, the
/// length in that many bytes, then the bytes — so a longer magnitude sorts
/// after a shorter one.
pub open spec fn uint_field(m: Seq<u8>) -> Seq<u8> {
    seq![len_bytes_count(m.len()) as u8] + be_bytes(m.len(), len_bytes_count(m.len())) + m
}

/// The order-preserving encoding of a signed big integer: a sign class
/// (negative `0`, zero `1`, positive `2`), then the magnitude's run,
/// bit-inverted for negatives.
pub open spec fn signed_int_bytes(v: int) -> Seq<u8> {
    if v == 0 {
        seq![1u8]
    } else if v > 0 {
        seq![2u8] + uint_field(magnitude_bytes(v as nat))
    } else {
        seq![0u8] + complement(uint_field(magnitude_bytes((-v) as nat)))
    }
}

/// `d` without its trailing zero digits, keeping at least one digit.
pub open spec fn strip_trailing_zeros(d: Seq<u8>) -> Seq<u8>
    decreases d.len(),
{
    if d.len() > 1 && d.last() == 0 {
        strip_trailing_zeros(d.drop_last())
    } else {
        d
    }
}

/// The base-ten exponent of the leading digit of `n` digits times `10^e`.
pub open spec fn lead_exponent(n: nat, e: i8) -> i16 {
    (n - 1 + e) as i16
}

/// The body of a finite big float's key: its leading-digit exponent, then
/// its significant digits.
pub open spec fn bigfloat_body(exponent: i8, mantissa: Seq<u8>) -> Seq<u8> {
    offset_field(lead_exponent(mantissa.len(), exponent) as int, 2) + ordered_bytes_of(
        strip_trailing_zeros(mantissa),
    )
}

/// The order-preserving encoding of a big float: the class tag, and for a
/// finite non-zero value its body, bit-inverted when negative.
pub open spec fn bigfloat_ascending_bytes(f: BigFloatView) -> Seq<u8> {
    match f {
        BigFloatView::Nan => seq![BIG_FLOAT_NAN_KEY],
        BigFloatView::InfPos => seq![BIG_FLOAT_POS_INF_KEY],
        BigFloatView::InfNeg => seq![BIG_FLOAT_NEG_INF_KEY],
        BigFloatView::Zero => seq![BIG_FLOAT_ZERO_KEY],
        BigFloatView::Finite { negative, exponent, mantissa } => if negative {
            seq![BIG_FLOAT_NEG_KEY] + complement(bigfloat_body(exponent, mantissa))
        } else {
            seq![BIG_FLOAT_POS_KEY] + bigfloat_body(exponent, mantissa)
        },
    }
}

/// The continued-fraction terms from position `i` on: each a continue
/// marker and its magnitude run (bit-inverted at odd positions), then the
/// stop marker, which sorts above a continuation after an even number of
/// terms and below it after an odd number.
pub open spec fn cf_tail_bytes(terms: Seq<int>, i: nat) -> Seq<u8>
    decreases terms.len() - i,
{
    if i >= terms.len() {
        seq![if terms.len() % 2 == 0 {
            2u8
        } else {
            0u8
        }]
    } else {
        seq![1u8] + directed(uint_field(magnitude_bytes(abs(terms[i as int]))), i % 2 == 1)
            + cf_tail_bytes(terms, i + 1)
    }
}

/// The order-preserving encoding of a rational, by the continued fraction of
/// its reduced form: the floor as a signed big integer, then the later terms.
pub open spec fn rational_ascending_bytes(n: int, d: int) -> Seq<u8> {
    let q = reduced(n, d);
    let t = cf_terms(q.0, q.1);
    seq![RATIONAL_TAG] + signed_int_bytes(t[0]) + cf_tail_bytes(t, 1)
}

/// The column encoding of a scalar: ascending, or its complement when the
/// column sorts descending.
pub open spec fn column_bytes(v: ScalarView, descending: bool) -> Seq<u8> {
    directed(ascending_bytes(v), descending)
}

/// `s`, bit-inverted when `descending`.
pub open spec fn directed(s: Seq<u8>, descending: bool) -> Seq<u8> {
    if descending {
        complement(s)
    } else {
        s
    }
}

// ---------------------------------------------------------------------------
// The order the encoding preserves
// ---------------------------------------------------------------------------

/// The position of a scalar's type in the cross-type order (its tag).
pub open spec fn type_rank(v: ScalarView) -> u8 {
    ascending_bytes(v)[0]
}

/// IEEE-754 totalOrder rank of a 32-bit pattern: negative patterns by
/// decreasing magnitude, then non-negative ones by increasing magnitude
/// (`-0` just below `+0`). For non-NaN values this is numeric order.
pub open spec fn float32_rank(bits: u32) -> int {
    if bits >= 0x8000_0000 {
        0x7FFF_FFFF - bits
    } else {
        bits as int
    }
}

/// IEEE-754 totalOrder rank of a 64-bit pattern (see [`float32_rank`]).
pub open spec fn float64_rank(bits: u64) -> int {
    if bits >= 0x8000_0000_0000_0000 {
        0x7FFF_FFFF_FFFF_FFFF - bits
    } else {
        bits as int
    }
}

/// Time-of-day order: by second, then nanosecond.
pub open spec fn clock_lt(a: TimeOfDay, b: TimeOfDay) -> bool {
    a.secs < b.secs || (a.secs == b.secs && a.nanos < b.nanos)
}

/// Bytewise order of byte strings, as `<[u8] as Ord>` compares them.
pub open spec fn bytes_lt(a: Seq<u8>, b: Seq<u8>) -> bool {
    crate::bytes::lex_lt(a, b)
}

/// The order of two scalars of one type: numeric for integers, temporal for
/// dates and times, `false < true`, IEEE totalOrder for float patterns, and
/// bytewise for strings (UTF-8 bytes, i.e. code-point order) and byte strings.
/// The big-number types have laws of their own ([`lemma_bigint_order`],
/// [`lemma_bigfloat_order`]) and are left out here.
pub open spec fn same_type_lt(a: ScalarView, b: ScalarView) -> bool {
    match (a, b) {
        (ScalarView::Bool(x), ScalarView::Bool(y)) => !x && y,
        (ScalarView::I8(x), ScalarView::I8(y)) => x < y,
        (ScalarView::I16(x), ScalarView::I16(y)) => x < y,
        (ScalarView::I32(x), ScalarView::I32(y)) => x < y,
        (ScalarView::I64(x), ScalarView::I64(y)) => x < y,
        (ScalarView::I128(x), ScalarView::I128(y)) => x < y,
        (ScalarView::U8(x), ScalarView::U8(y)) => x < y,
        (ScalarView::U16(x), ScalarView::U16(y)) => x < y,
        (ScalarView::U32(x), ScalarView::U32(y)) => x < y,
        (ScalarView::U64(x), ScalarView::U64(y)) => x < y,
        (ScalarView::U128(x), ScalarView::U128(y)) => x < y,
        (ScalarView::F32(x), ScalarView::F32(y)) => float32_rank(x) < float32_rank(y),
        (ScalarView::F64(x), ScalarView::F64(y)) => float64_rank(x) < float64_rank(y),
        (ScalarView::Str(x), ScalarView::Str(y)) => bytes_lt(encode_utf8(x), encode_utf8(y)),
        (ScalarView::Bytes(x), ScalarView::Bytes(y)) => bytes_lt(x, y),
        (ScalarView::Uuid(x), ScalarView::Uuid(y)) => x < y,
        (ScalarView::Date(x), ScalarView::Date(y)) => x < y,
        (ScalarView::Time(x), ScalarView::Time(y)) => clock_lt(x, y),
        (ScalarView::DateTime(x), ScalarView::DateTime(y)) => x.days < y.days || (x.days == y.days
            && clock_lt(x.time, y.time)),
        (ScalarView::Duration(x), ScalarView::Duration(y)) => duration_total(x) < duration_total(y),
        _ => false,
    }
}

/// The index order of scalars: by type (the fixed tag order, `Null` first),
/// then by value within a type.
pub open spec fn scalar_lt(a: ScalarView, b: ScalarView) -> bool {
    type_rank(a) < type_rank(b) || (type_rank(a) == type_rank(b) && same_type_lt(a, b))
}

// ---------------------------------------------------------------------------
// Executable encoders
// ---------------------------------------------------------------------------

/// `v + 2^(8n-1)`: the sign-flipped pattern of an `n`-byte signed integer.
fn offset_binary(v: i128, n: usize) -> (u: u128)
    requires
        n == 1 || n == 2 || n == 4 || n == 8 || n == 16,
        -(pow256(n as nat) as int) <= 2 * v < pow256(n as nat),
    ensures
        u as int == v + pow256(n as nat) / 2,
{
    proof {
        lemma_pow256_values();
    }
    let half: u128 = if n == 1 {
        0x80
    } else if n == 2 {
        0x8000
    } else if n == 4 {
        0x8000_0000
    } else if n == 8 {
        0x8000_0000_0000_0000
    } else {
        0x8000_0000_0000_0000_0000_0000_0000_0000
    };
    if v >= 0 {
        half + v as u128
    } else {
        half - ((-(v + 1)) as u128) - 1
    }
}

/// Writes `tag` then a sign-flipped big-endian integer (two's-complement order
/// becomes unsigned byte order).
fn signed(out: &mut Vec<u8>, tag: u8, v: i128, n: usize)
    requires
        n == 1 || n == 2 || n == 4 || n == 8 || n == 16,
        -(pow256(n as nat) as int) <= 2 * v < pow256(n as nat),
    ensures
        final(out)@ == old(out)@ + seq![tag] + offset_field(v as int, n as nat),
{
    out.push(tag);
    push_signed(out, v, n);
}

/// Appends the sign-flipped big-endian form of an `n`-byte signed integer.
fn push_signed(out: &mut Vec<u8>, v: i128, n: usize)
    requires
        n == 1 || n == 2 || n == 4 || n == 8 || n == 16,
        -(pow256(n as nat) as int) <= 2 * v < pow256(n as nat),
    ensures
        final(out)@ == old(out)@ + offset_field(v as int, n as nat),
{
    let u = offset_binary(v, n);
    push_be(out, u, n);
}

/// Writes `tag` then big-endian bytes (already order-preserving for unsigned
/// integers and the float total-order transform).
fn unsigned(out: &mut Vec<u8>, tag: u8, v: u128, n: usize)
    ensures
        final(out)@ == old(out)@ + seq![tag] + be_bytes(v as nat, n as nat),
{
    out.push(tag);
    push_be(out, v, n);
}

/// Appends the bit-inverse of `bytes`.
fn append_complement(out: &mut Vec<u8>, bytes: &[u8])
    ensures
        final(out)@ == old(out)@ + complement(bytes@),
{
    let mut i: usize = 0;
    while i < bytes.len()
        invariant
            i <= bytes@.len(),
            out@ == old(out)@ + complement(bytes@.take(i as int)),
        decreases bytes@.len() - i,
    {
        let b = bytes[i];
        assert(!b == 255 - b) by (bit_vector);
        out.push(!b);
        assert(complement(bytes@.take(i + 1)) =~= complement(bytes@.take(i as int)).push(!b));
        i = i + 1;
    }
    assert(bytes@.take(i as int) =~= bytes@);
}

/// Appends a self-delimiting unsigned run: how many bytes the length takes,
/// the length in that many big-endian bytes, then `mag`.
fn put_uint_be(out: &mut Vec<u8>, mag: &[u8])
    ensures
        final(out)@ == old(out)@ + uint_field(mag@),
{
    let len = mag.len() as u64;
    let mut x: u64 = len;
    let mut k: usize = 0;
    proof {
        lemma_pow256_values();
        lemma_len_bytes_count_bound(len as nat, 8);
    }
    while x > 0
        invariant
            k + len_bytes_count(x as nat) == len_bytes_count(len as nat),
            len_bytes_count(len as nat) <= 8,
        decreases x,
    {
        x = x / 256;
        k = k + 1;
    }
    out.push(k as u8);
    push_be(out, len as u128, k);
    append_bytes(out, mag);
    assert(final(out)@ =~= old(out)@ + uint_field(mag@));
}

/// Appends the order-preserving encoding of a signed big integer: a sign
/// class (negatives below zero below positives), then the magnitude's run,
/// bit-inverted for negatives so a larger magnitude sorts lower.
fn encode_signed_int(out: &mut Vec<u8>, v: &BigIntParts)
    ensures
        final(out)@ == old(out)@ + signed_int_bytes(v@),
{
    let sign = bigint_sign(v);
    if sign == 0 {
        out.push(1);
    } else if sign > 0 {
        out.push(2);
        let mag = bigint_magnitude(v);
        put_uint_be(out, mag.as_slice());
    } else {
        out.push(0);
        let mag = bigint_magnitude(v);
        let mut run: Vec<u8> = Vec::new();
        put_uint_be(&mut run, mag.as_slice());
        assert(run@ =~= uint_field(mag@));
        append_complement(out, run.as_slice());
    }
    assert(final(out)@ =~= old(out)@ + signed_int_bytes(v@));
}

/// Appends the value-ordered encoding of a big float. The class tag orders
/// the special values and the sign; a finite non-zero number is keyed by the
/// base-ten exponent of its leading digit, then by its significant digits;
/// negatives invert the body so a larger magnitude sorts lower.
fn encode_bigfloat(out: &mut Vec<u8>, v: &BigFloatParts)
    ensures
        final(out)@ == old(out)@ + bigfloat_ascending_bytes(v@),
{
    match v {
        BigFloatParts::Nan => out.push(BIG_FLOAT_NAN_KEY),
        BigFloatParts::InfPos => out.push(BIG_FLOAT_POS_INF_KEY),
        BigFloatParts::InfNeg => out.push(BIG_FLOAT_NEG_INF_KEY),
        BigFloatParts::Zero => out.push(BIG_FLOAT_ZERO_KEY),
        BigFloatParts::Finite { negative, exponent, mantissa } => {
            let n = mantissa.len();
            let mut digits = mantissa.clone();
            assert(digits@ =~= mantissa@);
            // Trailing zeros do not change the value; dropping them makes the
            // digit string canonical, so equal values encode identically.
            while digits.len() > 1 && digits[digits.len() - 1] == 0
                invariant
                    strip_trailing_zeros(digits@) == strip_trailing_zeros(mantissa@),
                decreases digits.len(),
            {
                let ghost before = digits@;
                digits.pop();
                assert(digits@ =~= before.drop_last());
            }
            let d: i16 = (n as i128 - 1 + *exponent as i128) as i16;
            assert(d == lead_exponent(mantissa@.len(), *exponent));
            proof {
                lemma_pow256_values();
            }
            let mut body: Vec<u8> = Vec::new();
            push_signed(&mut body, d as i128, 2);
            ordered_bytes(&mut body, digits.as_slice());
            assert(body@ =~= bigfloat_body(*exponent, mantissa@));
            if *negative {
                out.push(BIG_FLOAT_NEG_KEY);
                append_complement(out, body.as_slice());
            } else {
                out.push(BIG_FLOAT_POS_KEY);
                append_bytes(out, body.as_slice());
            }
        },
    }
    assert(final(out)@ =~= old(out)@ + bigfloat_ascending_bytes(v@));
}

/// Appends the value-ordered encoding of a rational via its continued
/// fraction. A continued fraction increases in its even-indexed terms and
/// decreases in its odd-indexed ones, so odd-index terms are bit-inverted; a
/// per-position marker separates "another term follows" from "the expansion
/// stops here", the stop marker chosen by parity so that stopping sorts on
/// the correct side of a continuation.
fn encode_rational(out: &mut Vec<u8>, v: &RationalParts)
    ensures
        final(out)@ == old(out)@ + rational_ascending_bytes(v.numer_value(), v.denom_value()),
{
    let q = RationalParts::new(v.numer(), v.denom());
    out.push(RATIONAL_TAG);
    let terms = continued_fraction(q.numer(), q.denom());
    let ghost t = cf_terms(q.numer_value(), q.denom_value());
    proof {
        assert(ints_view(terms@) == t);
        assert(t.len() > 0) by {
            assert(t[0] == ints_view(terms@)[0]) by {
                assert(q.denom_value() > 0);
            }
        }
    }
    assert(terms.len() > 0);
    let ghost tagged = out@;
    encode_signed_int(out, &terms[0]);
    let ghost start = out@;
    proof {
        assert(terms@[0]@ == t[0]);
    }
    let mut i: usize = 1;
    while i < terms.len()
        invariant
            1 <= i <= terms@.len(),
            ints_view(terms@) == t,
            out@ + cf_tail_bytes(t, i as nat) == start + cf_tail_bytes(t, 1),
        decreases terms@.len() - i,
    {
        let ghost before = out@;
        out.push(1);
        let mag = bigint_magnitude(&terms[i]);
        if i % 2 == 1 {
            let mut run: Vec<u8> = Vec::new();
            put_uint_be(&mut run, mag.as_slice());
            assert(run@ =~= uint_field(mag@));
            append_complement(out, run.as_slice());
        } else {
            put_uint_be(out, mag.as_slice());
        }
        proof {
            assert(terms@[i as int]@ == t[i as int]);
            assert(out@ =~= before + seq![1u8] + directed(
                uint_field(magnitude_bytes(abs(t[i as int]))),
                i % 2 == 1,
            ));
            assert(cf_tail_bytes(t, i as nat) =~= seq![1u8] + directed(
                uint_field(magnitude_bytes(abs(t[i as int]))),
                i % 2 == 1,
            ) + cf_tail_bytes(t, (i + 1) as nat));
        }
        i = i + 1;
    }
    let stop: u8 = if terms.len() % 2 == 0 {
        2
    } else {
        0
    };
    let ghost before_stop = out@;
    out.push(stop);
    proof {
        assert(ints_view(terms@).len() == terms@.len());
        assert(cf_tail_bytes(t, i as nat) == seq![stop]);
        assert(out@ =~= start + cf_tail_bytes(t, 1));
        assert(tagged =~= old(out)@.push(RATIONAL_TAG));
    }
    assert(final(out)@ =~= old(out)@ + rational_ascending_bytes(v.numer_value(), v.denom_value()));
}

/// IEEE-754 total order transform of a 64-bit pattern.
fn float64(bits: u64) -> (k: u64)
    ensures
        k as nat == float64_key(bits),
{
    if bits & (1u64 << 63u64) != 0 {
        assert(bits & (1u64 << 63u64) != 0 ==> bits >= 0x8000_0000_0000_0000u64) by (bit_vector);
        assert(!bits == 0xFFFF_FFFF_FFFF_FFFFu64 - bits) by (bit_vector);
        !bits
    } else {
        assert(bits & (1u64 << 63u64) == 0 ==> bits < 0x8000_0000_0000_0000u64 && (bits | (1u64
            << 63u64)) == bits + 0x8000_0000_0000_0000u64) by (bit_vector);
        bits | (1u64 << 63u64)
    }
}

/// IEEE-754 total order transform of a 32-bit pattern.
fn float32(bits: u32) -> (k: u32)
    ensures
        k as nat == float32_key(bits),
{
    if bits & (1u32 << 31u32) != 0 {
        assert(bits & (1u32 << 31u32) != 0 ==> bits >= 0x8000_0000u32) by (bit_vector);
        assert(!bits == 0xFFFF_FFFFu32 - bits) by (bit_vector);
        !bits
    } else {
        assert(bits & (1u32 << 31u32) == 0 ==> bits < 0x8000_0000u32 && (bits | (1u32 << 31u32))
            == bits + 0x8000_0000u32) by (bit_vector);
        bits | (1u32 << 31u32)
    }
}

pub proof fn lemma_escaped_push(s: Seq<u8>, b: u8)
    ensures
        escaped(s.push(b)) == escaped(s) + escape_byte(b),
    decreases s.len(),
{
    if s.len() == 0 {
        assert(s.push(b).drop_first() =~= Seq::<u8>::empty());
        assert(escaped(s.push(b)) =~= escape_byte(b) + escaped(Seq::<u8>::empty()));
        assert(escaped(s.push(b)) =~= escaped(s) + escape_byte(b));
    } else {
        lemma_escaped_push(s.drop_first(), b);
        assert(s.push(b).drop_first() =~= s.drop_first().push(b));
        assert(escaped(s.push(b)) =~= escaped(s) + escape_byte(b));
    }
}

/// Appends the order-preserving, self-delimiting form of `bytes`: each `0x00`
/// escaped as `0x00 0xFF`, the whole terminated by `0x00 0x01`.
///
/// The two-byte terminator (rather than a bare `0x00`) is what makes the
/// encodings prefix-free: after any `0x00` the next byte is `0xFF` (escaped
/// content) or `0x01` (terminator), and `0x01 < 0xFF`, so no encoding is a
/// prefix of another — which a descending column, being a bit-complement,
/// relies on.
fn ordered_bytes(out: &mut Vec<u8>, bytes: &[u8])
    ensures
        final(out)@ == old(out)@ + ordered_bytes_of(bytes@),
{
    let mut i: usize = 0;
    while i < bytes.len()
        invariant
            i <= bytes@.len(),
            out@ == old(out)@ + escaped(bytes@.take(i as int)),
        decreases bytes@.len() - i,
    {
        let byte = bytes[i];
        out.push(byte);
        if byte == 0 {
            out.push(0xFF);
        }
        proof {
            assert(bytes@.take(i + 1) =~= bytes@.take(i as int).push(byte));
            lemma_escaped_push(bytes@.take(i as int), byte);
        }
        assert(out@ =~= old(out)@ + escaped(bytes@.take(i + 1)));
        i = i + 1;
    }
    out.push(0x00);
    out.push(0x01);
    assert(bytes@.take(i as int) =~= bytes@);
    assert(out@ =~= old(out)@ + ordered_bytes_of(bytes@));
}

/// Appends `scalar`'s ascending order-preserving encoding.
fn encode_ascending(out: &mut Vec<u8>, scalar: &Scalar)
    ensures
        final(out)@ == old(out)@ + ascending_bytes(scalar@),
{
    proof {
        lemma_pow256_values();
    }
    match scalar {
        Scalar::Null => {
            out.push(NULL_TAG);
        },
        Scalar::Bool(v) => {
            out.push(BOOL_TAG);
            out.push(if *v {
                1
            } else {
                0
            });
        },
        Scalar::I8(v) => signed(out, I8_TAG, *v as i128, 1),
        Scalar::I16(v) => signed(out, I16_TAG, *v as i128, 2),
        Scalar::I32(v) => signed(out, I32_TAG, *v as i128, 4),
        Scalar::I64(v) => signed(out, I64_TAG, *v as i128, 8),
        Scalar::I128(v) => signed(out, I128_TAG, *v, 16),
        Scalar::U8(v) => {
            out.push(U8_TAG);
            out.push(*v);
        },
        Scalar::U16(v) => unsigned(out, U16_TAG, *v as u128, 2),
        Scalar::U32(v) => unsigned(out, U32_TAG, *v as u128, 4),
        Scalar::U64(v) => unsigned(out, U64_TAG, *v as u128, 8),
        Scalar::U128(v) => unsigned(out, U128_TAG, *v, 16),
        Scalar::F32(v) => unsigned(out, F32_TAG, float32(*v) as u128, 4),
        Scalar::F64(v) => unsigned(out, F64_TAG, float64(*v) as u128, 8),
        Scalar::Str(v) => {
            out.push(STR_TAG);
            ordered_bytes(out, v.as_str().as_bytes());
        },
        Scalar::Bytes(v) => {
            out.push(BYTES_TAG);
            ordered_bytes(out, v.as_slice());
        },
        Scalar::Uuid(v) => unsigned(out, UUID_TAG, *v, 16),
        Scalar::Date(v) => signed(out, DATE_TAG, *v as i128, 4),
        Scalar::Time(v) => {
            out.push(TIME_TAG);
            push_be(out, v.secs as u128, 4);
            push_be(out, v.nanos as u128, 4);
        },
        Scalar::DateTime(v) => {
            out.push(DATETIME_TAG);
            push_signed(out, v.days as i128, 4);
            push_be(out, v.time.secs as u128, 4);
            push_be(out, v.time.nanos as u128, 4);
        },
        Scalar::Duration(v) => {
            // Total nanoseconds as a signed 128-bit value captures the full
            // order (the whole `TimeDelta` range times 10^9 fits in i128).
            let nanos = v.secs as i128 * 1_000_000_000 + v.nanos as i128;
            signed(out, DURATION_TAG, nanos, 16);
        },
        Scalar::BigInt(v) => {
            out.push(BIG_INT_TAG);
            encode_signed_int(out, v);
        },
        Scalar::BigFloat(v) => encode_bigfloat(out, v),
        Scalar::Rational(v) => encode_rational(out, v),
    }
    assert(final(out)@ =~= old(out)@ + ascending_bytes(scalar@));
}

/// Appends `scalar`'s order-preserving encoding to `out`; when `descending`,
/// the freshly written bytes are bit-inverted so the column sorts in reverse.
pub fn encode_scalar(out: &mut Vec<u8>, scalar: &Scalar, descending: bool)
    ensures
        final(out)@ == old(out)@ + column_bytes(scalar@, descending),
{
    let mut fresh: Vec<u8> = Vec::new();
    encode_ascending(&mut fresh, scalar);
    assert(fresh@ =~= ascending_bytes(scalar@));
    let mut i: usize = 0;
    while i < fresh.len()
        invariant
            i <= fresh@.len(),
            fresh@ == ascending_bytes(scalar@),
            out@ == old(out)@ + directed(fresh@.take(i as int), descending),
        decreases fresh@.len() - i,
    {
        let b = fresh[i];
        if descending {
            assert(!b == 255 - b) by (bit_vector);
            out.push(!b);
        } else {
            out.push(b);
        }
        assert(fresh@.take(i + 1) =~= fresh@.take(i as int).push(b));
        assert(out@ =~= old(out)@ + directed(fresh@.take(i + 1), descending));
        i = i + 1;
    }
    assert(fresh@.take(i as int) =~= fresh@);
}

// ---------------------------------------------------------------------------
// Order laws
// ---------------------------------------------------------------------------

/// Order-preserving byte strings: a bytewise-smaller string encodes to a
/// strictly smaller encoding, decided at a position inside both (so the
/// encodings are prefix-free and stay ordered under any suffix).
pub proof fn lemma_ordered_bytes_order(a: Seq<u8>, b: Seq<u8>)
    requires
        bytes_lt(a, b),
    ensures
        sorts_before(ordered_bytes_of(a), ordered_bytes_of(b)),
    decreases a.len(),
{
    let oa = ordered_bytes_of(a);
    let ob = ordered_bytes_of(b);
    assert(b.len() > 0);
    assert(ob =~= escape_byte(b[0]) + ordered_bytes_of(b.drop_first()));
    if a.len() == 0 {
        assert(oa =~= seq![0u8, 1u8]);
        if b[0] != 0 {
            assert(oa.take(0) =~= ob.take(0));
            assert(diverge_at(oa, ob, 0));
        } else {
            assert(ob[0] == 0 && ob[1] == 0xFF);
            assert(oa.take(1) =~= ob.take(1));
            assert(diverge_at(oa, ob, 1));
        }
    } else {
        assert(oa =~= escape_byte(a[0]) + ordered_bytes_of(a.drop_first()));
        if a[0] != b[0] {
            assert(a[0] < b[0]);
            assert(oa[0] == a[0] && ob[0] == b[0]);
            assert(oa.take(0) =~= ob.take(0));
            assert(diverge_at(oa, ob, 0));
        } else {
            lemma_ordered_bytes_order(a.drop_first(), b.drop_first());
            lemma_sorts_before_prepend(
                escape_byte(a[0]),
                ordered_bytes_of(a.drop_first()),
                ordered_bytes_of(b.drop_first()),
            );
        }
    }
}

/// Unsigned fields of one width sort by value.
pub proof fn lemma_unsigned_order(x: nat, y: nat, n: nat)
    requires
        x < y < pow256(n),
    ensures
        sorts_before(be_bytes(x, n), be_bytes(y, n)),
{
    lemma_be_bytes_len(x, n);
    lemma_be_bytes_len(y, n);
    lemma_be_value_of_bytes(x, n);
    lemma_be_value_of_bytes(y, n);
    lemma_be_order(be_bytes(x, n), be_bytes(y, n));
}

/// Sign-flipped fields of one width sort by signed value.
pub proof fn lemma_offset_order(x: int, y: int, n: nat)
    requires
        n == 1 || n == 2 || n == 4 || n == 8 || n == 16,
        -(pow256(n) as int) <= 2 * x,
        x < y,
        2 * y < pow256(n),
    ensures
        sorts_before(offset_field(x, n), offset_field(y, n)),
{
    lemma_pow256_values();
    lemma_unsigned_order((x + pow256(n) / 2) as nat, (y + pow256(n) / 2) as nat, n);
}

/// A common leading tag, then ordered bodies.
pub(crate) proof fn lemma_tagged(t: u8, a: Seq<u8>, b: Seq<u8>)
    requires
        sorts_before(a, b),
    ensures
        sorts_before(seq![t] + a, seq![t] + b),
{
    lemma_sorts_before_prepend(seq![t], a, b);
}

/// Two-part bodies: a smaller first part decides; equal first parts defer to
/// the second.
proof fn lemma_pair(a1: Seq<u8>, a2: Seq<u8>, b1: Seq<u8>, b2: Seq<u8>)
    requires
        sorts_before(a1, b1) || (a1 == b1 && sorts_before(a2, b2)),
    ensures
        sorts_before(a1 + a2, b1 + b2),
{
    if sorts_before(a1, b1) {
        crate::bytes::lemma_sorts_before_extend(a1, b1, a2, b2);
    } else {
        lemma_sorts_before_prepend(a1, a2, b2);
    }
}

proof fn lemma_clock_order(x: TimeOfDay, y: TimeOfDay)
    requires
        clock_lt(x, y),
    ensures
        sorts_before(clock_field(x), clock_field(y)),
{
    lemma_pow256_values();
    if x.secs < y.secs {
        lemma_unsigned_order(x.secs as nat, y.secs as nat, 4);
    } else {
        lemma_unsigned_order(x.nanos as nat, y.nanos as nat, 4);
    }
    lemma_pair(
        be_bytes(x.secs as nat, 4),
        be_bytes(x.nanos as nat, 4),
        be_bytes(y.secs as nat, 4),
        be_bytes(y.nanos as nat, 4),
    );
}

/// Same-type order of the integer, float and UUID scalars.
proof fn lemma_numeric_order(a: ScalarView, b: ScalarView)
    requires
        same_type_lt(a, b),
        !(a is Str || a is Bytes || a is Time || a is DateTime || a is Duration || a is Date),
    ensures
        sorts_before(ascending_bytes(a), ascending_bytes(b)),
{
    lemma_pow256_values();
    match (a, b) {
        (ScalarView::Bool(x), ScalarView::Bool(y)) => {
            let ea = ascending_bytes(a);
            let eb = ascending_bytes(b);
            assert(ea.take(1) =~= eb.take(1));
            assert(diverge_at(ea, eb, 1));
        },
        (ScalarView::I8(x), ScalarView::I8(y)) => {
            lemma_offset_order(x as int, y as int, 1);
            lemma_tagged(I8_TAG, offset_field(x as int, 1), offset_field(y as int, 1));
        },
        (ScalarView::I16(x), ScalarView::I16(y)) => {
            lemma_offset_order(x as int, y as int, 2);
            lemma_tagged(I16_TAG, offset_field(x as int, 2), offset_field(y as int, 2));
        },
        (ScalarView::I32(x), ScalarView::I32(y)) => {
            lemma_offset_order(x as int, y as int, 4);
            lemma_tagged(I32_TAG, offset_field(x as int, 4), offset_field(y as int, 4));
        },
        (ScalarView::I64(x), ScalarView::I64(y)) => {
            lemma_offset_order(x as int, y as int, 8);
            lemma_tagged(I64_TAG, offset_field(x as int, 8), offset_field(y as int, 8));
        },
        (ScalarView::I128(x), ScalarView::I128(y)) => {
            lemma_offset_order(x as int, y as int, 16);
            lemma_tagged(I128_TAG, offset_field(x as int, 16), offset_field(y as int, 16));
        },
        (ScalarView::U8(x), ScalarView::U8(y)) => {
            let ea = ascending_bytes(a);
            let eb = ascending_bytes(b);
            assert(ea.take(1) =~= eb.take(1));
            assert(diverge_at(ea, eb, 1));
        },
        (ScalarView::U16(x), ScalarView::U16(y)) => {
            lemma_unsigned_order(x as nat, y as nat, 2);
            lemma_tagged(U16_TAG, be_bytes(x as nat, 2), be_bytes(y as nat, 2));
        },
        (ScalarView::U32(x), ScalarView::U32(y)) => {
            lemma_unsigned_order(x as nat, y as nat, 4);
            lemma_tagged(U32_TAG, be_bytes(x as nat, 4), be_bytes(y as nat, 4));
        },
        (ScalarView::U64(x), ScalarView::U64(y)) => {
            lemma_unsigned_order(x as nat, y as nat, 8);
            lemma_tagged(U64_TAG, be_bytes(x as nat, 8), be_bytes(y as nat, 8));
        },
        (ScalarView::U128(x), ScalarView::U128(y)) => {
            lemma_unsigned_order(x as nat, y as nat, 16);
            lemma_tagged(U128_TAG, be_bytes(x as nat, 16), be_bytes(y as nat, 16));
        },
        (ScalarView::F32(x), ScalarView::F32(y)) => {
            lemma_unsigned_order(float32_key(x), float32_key(y), 4);
            lemma_tagged(F32_TAG, be_bytes(float32_key(x), 4), be_bytes(float32_key(y), 4));
        },
        (ScalarView::F64(x), ScalarView::F64(y)) => {
            lemma_unsigned_order(float64_key(x), float64_key(y), 8);
            lemma_tagged(F64_TAG, be_bytes(float64_key(x), 8), be_bytes(float64_key(y), 8));
        },
        (ScalarView::Uuid(x), ScalarView::Uuid(y)) => {
            lemma_unsigned_order(x as nat, y as nat, 16);
            lemma_tagged(UUID_TAG, be_bytes(x as nat, 16), be_bytes(y as nat, 16));
        },
        _ => {},
    }
}

/// Same-type order of the string, byte-string and temporal scalars.
proof fn lemma_structured_order(a: ScalarView, b: ScalarView)
    requires
        same_type_lt(a, b),
        a is Str || a is Bytes || a is Time || a is DateTime || a is Duration || a is Date,
    ensures
        sorts_before(ascending_bytes(a), ascending_bytes(b)),
{
    lemma_pow256_values();
    match (a, b) {
        (ScalarView::Str(x), ScalarView::Str(y)) => {
            lemma_ordered_bytes_order(encode_utf8(x), encode_utf8(y));
            lemma_tagged(
                STR_TAG,
                ordered_bytes_of(encode_utf8(x)),
                ordered_bytes_of(encode_utf8(y)),
            );
        },
        (ScalarView::Bytes(x), ScalarView::Bytes(y)) => {
            lemma_ordered_bytes_order(x, y);
            lemma_tagged(BYTES_TAG, ordered_bytes_of(x), ordered_bytes_of(y));
        },
        (ScalarView::Date(x), ScalarView::Date(y)) => {
            lemma_offset_order(x as int, y as int, 4);
            lemma_tagged(DATE_TAG, offset_field(x as int, 4), offset_field(y as int, 4));
        },
        (ScalarView::Time(x), ScalarView::Time(y)) => {
            lemma_clock_order(x, y);
            lemma_tagged(TIME_TAG, clock_field(x), clock_field(y));
        },
        (ScalarView::DateTime(x), ScalarView::DateTime(y)) => {
            if x.days < y.days {
                lemma_offset_order(x.days as int, y.days as int, 4);
            } else {
                lemma_clock_order(x.time, y.time);
            }
            lemma_pair(
                offset_field(x.days as int, 4),
                clock_field(x.time),
                offset_field(y.days as int, 4),
                clock_field(y.time),
            );
            lemma_tagged(
                DATETIME_TAG,
                offset_field(x.days as int, 4) + clock_field(x.time),
                offset_field(y.days as int, 4) + clock_field(y.time),
            );
            assert(ascending_bytes(a) =~= seq![DATETIME_TAG] + (offset_field(x.days as int, 4)
                + clock_field(x.time)));
            assert(ascending_bytes(b) =~= seq![DATETIME_TAG] + (offset_field(y.days as int, 4)
                + clock_field(y.time)));
        },
        (ScalarView::Duration(x), ScalarView::Duration(y)) => {
            let tx = duration_total(x);
            let ty = duration_total(y);
            assert(-(pow256(16) as int) <= 2 * tx && 2 * ty < pow256(16)) by (nonlinear_arith)
                requires
                    tx == x.secs * 1_000_000_000 + x.nanos,
                    ty == y.secs * 1_000_000_000 + y.nanos,
                    pow256(16) == 0x1_0000_0000_0000_0000_0000_0000_0000_0000,
                    -0x8000_0000_0000_0000 <= x.secs < 0x8000_0000_0000_0000,
                    -0x8000_0000_0000_0000 <= y.secs < 0x8000_0000_0000_0000,
                    -0x8000_0000 <= x.nanos < 0x8000_0000,
                    -0x8000_0000 <= y.nanos < 0x8000_0000,
            ;
            lemma_offset_order(tx, ty, 16);
            lemma_tagged(DURATION_TAG, offset_field(tx, 16), offset_field(ty, 16));
        },
        _ => {},
    }
}

/// The index encoding is order-preserving: a scalar that precedes another in
/// the index order (type first, then value) encodes to a bytewise-smaller key,
/// decided at a position inside both encodings — so it stays smaller with any
/// further columns appended.
pub proof fn lemma_ascending_order(a: ScalarView, b: ScalarView)
    requires
        scalar_lt(a, b),
    ensures
        sorts_before(ascending_bytes(a), ascending_bytes(b)),
        crate::bytes::lex_lt(ascending_bytes(a), ascending_bytes(b)),
{
    let ea = ascending_bytes(a);
    let eb = ascending_bytes(b);
    if type_rank(a) < type_rank(b) {
        assert(ea.take(0) =~= eb.take(0));
        assert(diverge_at(ea, eb, 0));
    } else if a is Str || a is Bytes || a is Time || a is DateTime || a is Duration || a is Date {
        lemma_structured_order(a, b);
    } else {
        lemma_numeric_order(a, b);
    }
    crate::bytes::lemma_sorts_before_lex(ea, eb);
}

/// A descending column reverses the order: the complemented encodings of two
/// ordered scalars sort the other way round.
pub proof fn lemma_descending_order(a: ScalarView, b: ScalarView)
    requires
        scalar_lt(a, b),
    ensures
        sorts_before(column_bytes(b, true), column_bytes(a, true)),
        crate::bytes::lex_lt(column_bytes(b, true), column_bytes(a, true)),
{
    lemma_ascending_order(a, b);
    lemma_sorts_before_complement(ascending_bytes(a), ascending_bytes(b));
    crate::bytes::lemma_sorts_before_lex(column_bytes(b, true), column_bytes(a, true));
}

/// `Null` sorts before every other scalar.
pub proof fn lemma_null_first(v: ScalarView)
    requires
        !(v is Null),
    ensures
        scalar_lt(ScalarView::Null, v),
        sorts_before(ascending_bytes(ScalarView::Null), ascending_bytes(v)),
{
    lemma_ascending_order(ScalarView::Null, v);
}

/// Byte strings encode in exactly their own order: two encodings compare as
/// the strings do, and an encoding is a prefix of another only when the two
/// strings are equal.
pub proof fn lemma_ordered_bytes_reflects(a: Seq<u8>, b: Seq<u8>)
    ensures
        bytes_lt(a, b) <==> lex_lt(ordered_bytes_of(a), ordered_bytes_of(b)),
        ordered_bytes_of(a).is_prefix_of(ordered_bytes_of(b)) ==> a == b,
{
    let oa = ordered_bytes_of(a);
    let ob = ordered_bytes_of(b);
    if a == b {
        if lex_lt(oa, ob) {
            lemma_lex_asym(oa, ob);
        }
        if bytes_lt(a, b) {
            lemma_lex_asym(a, b);
        }
    } else {
        lemma_lex_total(a, b);
        if bytes_lt(a, b) {
            lemma_ordered_bytes_order(a, b);
            lemma_sorts_before_lex(oa, ob);
            lemma_sorts_before_not_prefix(oa, ob);
        } else {
            lemma_ordered_bytes_order(b, a);
            lemma_sorts_before_lex(ob, oa);
            lemma_lex_asym(ob, oa);
            lemma_sorts_before_not_prefix(ob, oa);
        }
    }
}

/// The length of a fixed-width scalar type's encoded body, by tag.
spec fn fixed_body_len(tag: u8) -> nat {
    if tag == NULL_TAG {
        0
    } else if tag == BOOL_TAG || tag == I8_TAG || tag == U8_TAG {
        1
    } else if tag == I16_TAG || tag == U16_TAG {
        2
    } else if tag == I32_TAG || tag == U32_TAG || tag == F32_TAG || tag == DATE_TAG {
        4
    } else if tag == I64_TAG || tag == U64_TAG || tag == F64_TAG || tag == TIME_TAG {
        8
    } else if tag == DATETIME_TAG {
        12
    } else {
        16
    }
}

/// Every encoding starts with its tag; the string and byte-string tags are
/// their types' own; the other types have a body of a length fixed by the tag.
proof fn lemma_ascending_shape(v: ScalarView)
    ensures
        ascending_bytes(v).len() >= 1,
        type_rank(v) == STR_TAG <==> v is Str,
        type_rank(v) == BYTES_TAG <==> v is Bytes,
        is_big(v) <==> type_rank(v) >= BIG_INT_TAG,
        !(v is Str) && !(v is Bytes) && !is_big(v) ==> ascending_bytes(v).len() == 1
            + fixed_body_len(type_rank(v)),
{
    match v {
        ScalarView::BigFloat(f) => {
            match f {
                BigFloatView::Finite { negative, .. } => {
                    if negative {
                        assert(ascending_bytes(v)[0] == BIG_FLOAT_NEG_KEY);
                    } else {
                        assert(ascending_bytes(v)[0] == BIG_FLOAT_POS_KEY);
                    }
                },
                _ => {},
            }
        },
        ScalarView::I8(x) => lemma_be_bytes_len((x + pow256(1) / 2) as nat, 1),
        ScalarView::I16(x) => lemma_be_bytes_len((x + pow256(2) / 2) as nat, 2),
        ScalarView::I32(x) => lemma_be_bytes_len((x + pow256(4) / 2) as nat, 4),
        ScalarView::I64(x) => lemma_be_bytes_len((x + pow256(8) / 2) as nat, 8),
        ScalarView::I128(x) => lemma_be_bytes_len((x + pow256(16) / 2) as nat, 16),
        ScalarView::U16(x) => lemma_be_bytes_len(x as nat, 2),
        ScalarView::U32(x) => lemma_be_bytes_len(x as nat, 4),
        ScalarView::U64(x) => lemma_be_bytes_len(x as nat, 8),
        ScalarView::U128(x) => lemma_be_bytes_len(x as nat, 16),
        ScalarView::F32(x) => lemma_be_bytes_len(float32_key(x), 4),
        ScalarView::F64(x) => lemma_be_bytes_len(float64_key(x), 8),
        ScalarView::Uuid(x) => lemma_be_bytes_len(x as nat, 16),
        ScalarView::Date(d) => lemma_be_bytes_len((d + pow256(4) / 2) as nat, 4),
        ScalarView::Time(t) => {
            lemma_be_bytes_len(t.secs as nat, 4);
            lemma_be_bytes_len(t.nanos as nat, 4);
        },
        ScalarView::DateTime(dt) => {
            lemma_be_bytes_len((dt.days + pow256(4) / 2) as nat, 4);
            lemma_be_bytes_len(dt.time.secs as nat, 4);
            lemma_be_bytes_len(dt.time.nanos as nat, 4);
        },
        ScalarView::Duration(d) => lemma_be_bytes_len(
            (duration_total(d) + pow256(16) / 2) as nat,
            16,
        ),
        _ => {},
    }
}

/// Splitting a prefix relation after equal-length heads.
pub(crate) proof fn lemma_prefix_split(p1: Seq<u8>, x: Seq<u8>, p2: Seq<u8>, y: Seq<u8>)
    requires
        (p1 + x).is_prefix_of(p2 + y),
        p1.len() == p2.len(),
    ensures
        p1 == p2,
        x.is_prefix_of(y),
{
    let a = p1 + x;
    let b = p2 + y;
    assert forall|i: int| 0 <= i < p1.len() implies p1[i] == p2[i] by {
        assert(a[i] == b.subrange(0, a.len() as int)[i]);
    }
    assert(p1 =~= p2);
    assert forall|i: int| 0 <= i < x.len() implies x[i] == y.subrange(0, x.len() as int)[i] by {
        assert(a[p1.len() + i] == b.subrange(0, a.len() as int)[p1.len() + i]);
    }
    assert(x =~= y.subrange(0, x.len() as int));
}

/// A prefix of equal length is the whole.
pub(crate) proof fn lemma_prefix_same_len(a: Seq<u8>, b: Seq<u8>)
    requires
        a.is_prefix_of(b),
        a.len() == b.len(),
    ensures
        a == b,
{
    assert(a =~= b.subrange(0, a.len() as int));
    assert(b.subrange(0, b.len() as int) =~= b);
}

/// Bit inversion keeps and reflects the prefix relation.
pub(crate) proof fn lemma_complement_prefix(a: Seq<u8>, b: Seq<u8>)
    requires
        complement(a).is_prefix_of(complement(b)),
    ensures
        a.is_prefix_of(b),
{
    assert forall|i: int| 0 <= i < a.len() implies a[i] == b.subrange(0, a.len() as int)[i] by {
        assert(complement(a)[i] == complement(b).subrange(0, a.len() as int)[i]);
    }
    assert(a =~= b.subrange(0, a.len() as int));
}

/// Magnitude runs are prefix-free.
pub(crate) proof fn lemma_uint_field_prefix_free(x: nat, y: nat)
    requires
        x > 0,
        y > 0,
        len_bytes_count(x) < 0x1_0000_0000_0000_0000,
        len_bytes_count(y) < 0x1_0000_0000_0000_0000,
        uint_field(magnitude_bytes(x)).is_prefix_of(uint_field(magnitude_bytes(y))),
    ensures
        x == y,
{
    let cx = len_bytes_count(x);
    let cy = len_bytes_count(y);
    lemma_len_bytes_count_fits(x);
    lemma_len_bytes_count_fits(y);
    lemma_be_bytes_len(x, cx);
    lemma_be_bytes_len(y, cy);
    let kx = len_bytes_count(cx);
    let ky = len_bytes_count(cy);
    lemma_len_bytes_count_fits(cx);
    lemma_len_bytes_count_fits(cy);
    let fx = uint_field(magnitude_bytes(x));
    let fy = uint_field(magnitude_bytes(y));
    assert(fx[0] == fy.subrange(0, fx.len() as int)[0]);
    lemma_pow256_values();
    lemma_len_bytes_count_bound(cx, 8);
    lemma_len_bytes_count_bound(cy, 8);
    assert(kx == ky);
    lemma_be_bytes_len(cx, kx);
    lemma_be_bytes_len(cy, kx);
    assert(fx =~= (seq![kx as u8] + be_bytes(cx, kx)) + be_bytes(x, cx));
    assert(fy =~= (seq![kx as u8] + be_bytes(cy, kx)) + be_bytes(y, cy));
    lemma_prefix_split(
        seq![kx as u8] + be_bytes(cx, kx),
        be_bytes(x, cx),
        seq![kx as u8] + be_bytes(cy, kx),
        be_bytes(y, cy),
    );
    assert(be_bytes(cx, kx) =~= (seq![kx as u8] + be_bytes(cx, kx)).drop_first());
    assert(be_bytes(cy, kx) =~= (seq![kx as u8] + be_bytes(cy, kx)).drop_first());
    lemma_be_value_of_bytes(cx, kx);
    lemma_be_value_of_bytes(cy, kx);
    assert(cx == cy);
    lemma_prefix_same_len(be_bytes(x, cx), be_bytes(y, cy));
    lemma_be_value_of_bytes(x, cx);
    lemma_be_value_of_bytes(y, cy);
}

/// A big integer's magnitude fits the 64-bit length of its key (no memory
/// holds a longer one); every other scalar fits.
pub open spec fn key_fits(v: ScalarView) -> bool {
    match v {
        ScalarView::BigInt(x) => len_bytes_count(abs(x)) < 0x1_0000_0000_0000_0000,
        ScalarView::Rational(n, d) => crate::bignum::rational_canonical(n, d)
            && crate::fraction_order::rational_fits(n, d),
        _ => true,
    }
}

/// Big-integer keys are prefix-free.
pub(crate) proof fn lemma_bigint_prefix_free(x: int, y: int)
    requires
        key_fits(ScalarView::BigInt(x)),
        key_fits(ScalarView::BigInt(y)),
        signed_int_bytes(x).is_prefix_of(signed_int_bytes(y)),
    ensures
        x == y,
{
    let sx = signed_int_bytes(x);
    let sy = signed_int_bytes(y);
    assert(sx[0] == sy.subrange(0, sx.len() as int)[0]);
    if x > 0 {
        lemma_prefix_split(seq![2u8], uint_field(magnitude_bytes(x as nat)), seq![2u8], uint_field(
            magnitude_bytes(y as nat),
        ));
        lemma_uint_field_prefix_free(x as nat, y as nat);
    } else if x < 0 {
        lemma_prefix_split(
            seq![0u8],
            complement(uint_field(magnitude_bytes((-x) as nat))),
            seq![0u8],
            complement(uint_field(magnitude_bytes((-y) as nat))),
        );
        lemma_complement_prefix(
            uint_field(magnitude_bytes((-x) as nat)),
            uint_field(magnitude_bytes((-y) as nat)),
        );
        lemma_uint_field_prefix_free((-x) as nat, (-y) as nat);
    }
}

/// Big-float keys are prefix-free.
proof fn lemma_bigfloat_prefix_free(f: BigFloatView, g: BigFloatView)
    requires
        bigfloat_ascending_bytes(f).is_prefix_of(bigfloat_ascending_bytes(g)),
    ensures
        bigfloat_ascending_bytes(f) == bigfloat_ascending_bytes(g),
{
    let kf = bigfloat_ascending_bytes(f);
    let kg = bigfloat_ascending_bytes(g);
    assert(kf[0] == kg.subrange(0, kf.len() as int)[0]);
    assert(kf[0] == bigfloat_class(f) && kg[0] == bigfloat_class(g));
    match (f, g) {
        (
            BigFloatView::Finite { negative: nf, exponent: ef, mantissa: mf },
            BigFloatView::Finite { negative: ng, exponent: eg, mantissa: mg },
        ) => {
            let bf = bigfloat_body(ef, mf);
            let bg = bigfloat_body(eg, mg);
            lemma_prefix_split(seq![kf[0]], directed(bf, nf), seq![kg[0]], directed(bg, ng));
            if nf {
                lemma_complement_prefix(bf, bg);
            }
            lemma_pow256_values();
            let df = lead_exponent(mf.len(), ef) as int;
            let dg = lead_exponent(mg.len(), eg) as int;
            lemma_be_bytes_len((df + pow256(2) / 2) as nat, 2);
            lemma_be_bytes_len((dg + pow256(2) / 2) as nat, 2);
            lemma_prefix_split(
                offset_field(df, 2),
                ordered_bytes_of(strip_trailing_zeros(mf)),
                offset_field(dg, 2),
                ordered_bytes_of(strip_trailing_zeros(mg)),
            );
            lemma_ordered_bytes_reflects(strip_trailing_zeros(mf), strip_trailing_zeros(mg));
            assert(bf == bg);
        },
        _ => {
            assert(kf.len() == 1);
            assert(kg.len() == 1);
            assert(kf =~= kg);
        },
    }
}

/// Whether a scalar is one of the big-number types.
pub open spec fn is_big(v: ScalarView) -> bool {
    v is BigInt || v is BigFloat || v is Rational
}

/// The scalar encodings are prefix-free: one is a prefix of another only when
/// the two encodings are equal.
pub proof fn lemma_ascending_prefix_free(a: ScalarView, b: ScalarView)
    requires
        key_fits(a),
        key_fits(b),
    ensures
        ascending_bytes(a).is_prefix_of(ascending_bytes(b)) ==> ascending_bytes(a)
            == ascending_bytes(b),
{
    let ea = ascending_bytes(a);
    let eb = ascending_bytes(b);
    lemma_ascending_shape(a);
    lemma_ascending_shape(b);
    if ea.is_prefix_of(eb) {
        assert(ea[0] == eb.subrange(0, ea.len() as int)[0]);
        assert(type_rank(a) == type_rank(b));
        if is_big(a) && is_big(b) {
            match (a, b) {
                (ScalarView::BigInt(x), ScalarView::BigInt(y)) => {
                    lemma_prefix_split(seq![BIG_INT_TAG], signed_int_bytes(x), seq![BIG_INT_TAG], signed_int_bytes(y));
                    lemma_bigint_prefix_free(x, y);
                },
                (ScalarView::BigFloat(f), ScalarView::BigFloat(g)) => {
                    lemma_bigfloat_prefix_free(f, g);
                },
                (ScalarView::Rational(n1, d1), ScalarView::Rational(n2, d2)) => {
                    crate::fraction_order::lemma_rational_prefix_free(n1, d1, n2, d2);
                },
                _ => {
                    assert(ea[0] == RATIONAL_TAG || eb[0] == RATIONAL_TAG || ea[0] == BIG_INT_TAG || eb[0] == BIG_INT_TAG);
                },
            }
        } else {
            let pair = match (a, b) {
                (ScalarView::Str(x), ScalarView::Str(y)) => Some((encode_utf8(x), encode_utf8(y))),
                (ScalarView::Bytes(x), ScalarView::Bytes(y)) => Some((x, y)),
                _ => None,
            };
            if let Some((x, y)) = pair {
                assert(ordered_bytes_of(x) =~= ea.drop_first());
                assert(ordered_bytes_of(y) =~= eb.drop_first());
                assert(ordered_bytes_of(x).is_prefix_of(ordered_bytes_of(y))) by {
                    assert(ea.drop_first() =~= eb.drop_first().subrange(0, ea.len() - 1));
                }
                lemma_ordered_bytes_reflects(x, y);
            } else {
                assert(ea =~= eb.subrange(0, ea.len() as int));
                assert(ea =~= eb);
            }
        }
    }
}

/// A descending column sorts in exactly the reverse of the ascending order:
/// whenever one scalar's ascending encoding is bytewise smaller than
/// another's, its descending encoding is bytewise larger, decided at a
/// position inside both.
pub proof fn lemma_descending_reverses(a: ScalarView, b: ScalarView)
    requires
        lex_lt(ascending_bytes(a), ascending_bytes(b)),
        key_fits(a),
        key_fits(b),
    ensures
        sorts_before(column_bytes(b, true), column_bytes(a, true)),
        lex_lt(column_bytes(b, true), column_bytes(a, true)),
{
    let ea = ascending_bytes(a);
    let eb = ascending_bytes(b);
    lemma_ascending_prefix_free(a, b);
    lemma_lex_asym(ea, eb);
    lemma_lex_sorts_before(ea, eb);
    lemma_sorts_before_complement(ea, eb);
    lemma_sorts_before_lex(column_bytes(b, true), column_bytes(a, true));
}

/// The class of a big float in the index order: −∞ < negatives < zero <
/// positives < +∞, NaN parked above them all.
pub open spec fn bigfloat_class(f: BigFloatView) -> u8 {
    match f {
        BigFloatView::InfNeg => BIG_FLOAT_NEG_INF_KEY,
        BigFloatView::Finite { negative, .. } => if negative {
            BIG_FLOAT_NEG_KEY
        } else {
            BIG_FLOAT_POS_KEY
        },
        BigFloatView::Zero => BIG_FLOAT_ZERO_KEY,
        BigFloatView::InfPos => BIG_FLOAT_POS_INF_KEY,
        BigFloatView::Nan => BIG_FLOAT_NAN_KEY,
    }
}

/// Decimal scientific order of two digit strings with exponents: by the
/// leading digit's exponent, then by the significant digits.
pub open spec fn scientific_lt(e1: i8, m1: Seq<u8>, e2: i8, m2: Seq<u8>) -> bool {
    let d1 = lead_exponent(m1.len(), e1);
    let d2 = lead_exponent(m2.len(), e2);
    d1 < d2 || (d1 == d2 && bytes_lt(strip_trailing_zeros(m1), strip_trailing_zeros(m2)))
}

/// The order of big floats the index keeps: by class, then two positives in
/// decimal scientific order and two negatives in the reverse of it.
pub open spec fn bigfloat_lt(a: BigFloatView, b: BigFloatView) -> bool {
    ||| bigfloat_class(a) < bigfloat_class(b)
    ||| match (a, b) {
        (
            BigFloatView::Finite { negative: na, exponent: ea, mantissa: ma },
            BigFloatView::Finite { negative: nb, exponent: eb, mantissa: mb },
        ) => if !na && !nb {
            scientific_lt(ea, ma, eb, mb)
        } else if na && nb {
            scientific_lt(eb, mb, ea, ma)
        } else {
            false
        },
        _ => false,
    }
}

/// Bodies of finite big floats in scientific order sort in that order.
proof fn lemma_bigfloat_body_order(e1: i8, m1: Seq<u8>, e2: i8, m2: Seq<u8>)
    requires
        scientific_lt(e1, m1, e2, m2),
    ensures
        sorts_before(bigfloat_body(e1, m1), bigfloat_body(e2, m2)),
{
    lemma_pow256_values();
    let d1 = lead_exponent(m1.len(), e1) as int;
    let d2 = lead_exponent(m2.len(), e2) as int;
    let o1 = offset_field(d1, 2);
    let o2 = offset_field(d2, 2);
    let b1 = ordered_bytes_of(strip_trailing_zeros(m1));
    let b2 = ordered_bytes_of(strip_trailing_zeros(m2));
    if d1 < d2 {
        lemma_offset_order(d1, d2, 2);
    } else {
        lemma_ordered_bytes_order(strip_trailing_zeros(m1), strip_trailing_zeros(m2));
    }
    lemma_pair(o1, b1, o2, b2);
}

/// The big-float keys are order-preserving: a big float that precedes
/// another (by class; positives in decimal scientific order, negatives in
/// its reverse) encodes to a bytewise-smaller key, decided at a position
/// inside both.
pub proof fn lemma_bigfloat_order(a: BigFloatView, b: BigFloatView)
    requires
        bigfloat_lt(a, b),
    ensures
        sorts_before(bigfloat_ascending_bytes(a), bigfloat_ascending_bytes(b)),
        lex_lt(bigfloat_ascending_bytes(a), bigfloat_ascending_bytes(b)),
{
    let ka = bigfloat_ascending_bytes(a);
    let kb = bigfloat_ascending_bytes(b);
    assert(ka[0] == bigfloat_class(a) && ka.len() >= 1);
    assert(kb[0] == bigfloat_class(b) && kb.len() >= 1);
    if bigfloat_class(a) < bigfloat_class(b) {
        assert(ka.take(0) =~= kb.take(0));
        assert(diverge_at(ka, kb, 0));
    } else {
        match (a, b) {
            (
                BigFloatView::Finite { negative: na, exponent: ea, mantissa: ma },
                BigFloatView::Finite { negative: nb, exponent: eb, mantissa: mb },
            ) => {
                if !na {
                    lemma_bigfloat_body_order(ea, ma, eb, mb);
                    lemma_tagged(BIG_FLOAT_POS_KEY, bigfloat_body(ea, ma), bigfloat_body(eb, mb));
                } else {
                    lemma_bigfloat_body_order(eb, mb, ea, ma);
                    lemma_sorts_before_complement(bigfloat_body(eb, mb), bigfloat_body(ea, ma));
                    lemma_tagged(
                        BIG_FLOAT_NEG_KEY,
                        complement(bigfloat_body(ea, ma)),
                        complement(bigfloat_body(eb, mb)),
                    );
                }
            },
            _ => {},
        }
    }
    lemma_sorts_before_lex(ka, kb);
}

/// `x` needs `len_bytes_count(x)` bytes: it is below `256` to that power.
proof fn lemma_len_bytes_count_fits(x: nat)
    ensures
        x < pow256(len_bytes_count(x)),
    decreases x,
{
    if x > 0 {
        lemma_len_bytes_count_fits(x / 256);
        let c = len_bytes_count(x / 256);
        assert(pow256(c + 1) == 256 * pow256(c));
        lemma_fundamental_div_mod(x as int, 256);
        assert(x < 256 * pow256(c)) by (nonlinear_arith)
            requires
                x / 256 < pow256(c),
                x == 256 * (x / 256) + x % 256,
                x % 256 < 256,
        ;
    }
}

/// A larger number never needs fewer bytes.
proof fn lemma_len_bytes_count_monotone(x: nat, y: nat)
    requires
        x <= y,
    ensures
        len_bytes_count(x) <= len_bytes_count(y),
    decreases y,
{
    if x > 0 {
        assert(x / 256 <= y / 256) by (nonlinear_arith)
            requires
                x <= y,
        ;
        lemma_len_bytes_count_monotone(x / 256, y / 256);
    }
}

/// Magnitude runs of positive numbers sort by value.
pub(crate) proof fn lemma_uint_field_order(x: nat, y: nat)
    requires
        0 < x < y,
        len_bytes_count(y) < 0x1_0000_0000_0000_0000,
    ensures
        sorts_before(uint_field(magnitude_bytes(x)), uint_field(magnitude_bytes(y))),
{
    lemma_pow256_values();
    let cx = len_bytes_count(x);
    let cy = len_bytes_count(y);
    lemma_len_bytes_count_monotone(x, y);
    lemma_len_bytes_count_fits(x);
    lemma_len_bytes_count_fits(y);
    lemma_be_bytes_len(x, cx);
    lemma_be_bytes_len(y, cy);
    let mx = magnitude_bytes(x);
    let my = magnitude_bytes(y);
    let kx = len_bytes_count(cx);
    let ky = len_bytes_count(cy);
    lemma_len_bytes_count_monotone(cx, cy);
    lemma_len_bytes_count_bound(cy, 8);
    let fx = uint_field(mx);
    let fy = uint_field(my);
    if kx < ky {
        assert(fx[0] == kx as u8 && fy[0] == ky as u8);
        assert(fx.take(0) =~= fy.take(0));
        assert(diverge_at(fx, fy, 0));
    } else if cx < cy {
        lemma_len_bytes_count_fits(cy);
        lemma_unsigned_order(cx, cy, kx);
        crate::bytes::lemma_sorts_before_extend(be_bytes(cx, kx), be_bytes(cy, kx), mx, my);
        lemma_tagged(kx as u8, be_bytes(cx, kx) + mx, be_bytes(cy, kx) + my);
        assert(fx =~= seq![kx as u8] + (be_bytes(cx, kx) + mx));
        assert(fy =~= seq![kx as u8] + (be_bytes(cy, kx) + my));
    } else {
        lemma_unsigned_order(x, y, cx);
        let p = seq![kx as u8] + be_bytes(cx, kx);
        lemma_sorts_before_prepend(p, mx, my);
        assert(fx =~= p + mx);
        assert(fy =~= p + my);
    }
}

/// The big-integer keys are order-preserving: a smaller integer encodes to a
/// bytewise-smaller key, decided at a position inside both (for magnitudes
/// whose byte length fits the 64-bit length field).
pub proof fn lemma_bigint_order(x: int, y: int)
    requires
        x < y,
        len_bytes_count(abs(x)) < 0x1_0000_0000_0000_0000,
        len_bytes_count(abs(y)) < 0x1_0000_0000_0000_0000,
    ensures
        sorts_before(
            ascending_bytes(ScalarView::BigInt(x)),
            ascending_bytes(ScalarView::BigInt(y)),
        ),
        lex_lt(ascending_bytes(ScalarView::BigInt(x)), ascending_bytes(ScalarView::BigInt(y))),
{
    lemma_signed_int_order(x, y);
    lemma_tagged(BIG_INT_TAG, signed_int_bytes(x), signed_int_bytes(y));
    lemma_sorts_before_lex(
        ascending_bytes(ScalarView::BigInt(x)),
        ascending_bytes(ScalarView::BigInt(y)),
    );
}

/// Signed big-integer encodings sort by value.
pub(crate) proof fn lemma_signed_int_order(x: int, y: int)
    requires
        x < y,
        len_bytes_count(abs(x)) < 0x1_0000_0000_0000_0000,
        len_bytes_count(abs(y)) < 0x1_0000_0000_0000_0000,
    ensures
        sorts_before(signed_int_bytes(x), signed_int_bytes(y)),
{
    let sx = signed_int_bytes(x);
    let sy = signed_int_bytes(y);
    if x > 0 {
        lemma_uint_field_order(x as nat, y as nat);
        lemma_tagged(2u8, uint_field(magnitude_bytes(x as nat)), uint_field(magnitude_bytes(y as nat)));
    } else if y < 0 {
        lemma_uint_field_order((-y) as nat, (-x) as nat);
        lemma_sorts_before_complement(
            uint_field(magnitude_bytes((-y) as nat)),
            uint_field(magnitude_bytes((-x) as nat)),
        );
        lemma_tagged(
            0u8,
            complement(uint_field(magnitude_bytes((-x) as nat))),
            complement(uint_field(magnitude_bytes((-y) as nat))),
        );
    } else {
        assert(sx[0] < sy[0]);
        assert(sx.take(0) =~= sy.take(0));
        assert(diverge_at(sx, sy, 0));
    }
}

} // verus!
