//! Scalar leaf values: the [`Scalar`] enum and its exact storage encoding.
//!
//! Floating-point scalars are carried as their IEEE-754 bit patterns
//! (`to_bits`), which is all the storage and index encodings ever read of them;
//! UUIDs as their 128-bit value; dates and times as the day and clock numbers
//! `chrono` reports; the big-number scalars as the parts of [`crate::bignum`].

use crate::bytes::{
    lemma_be_bytes_len, lemma_be_value_of_bytes, lemma_twos_roundtrip, int_fits, pow256, be_bytes, be_value, from_twos, lemma_be_value_bound, lemma_from_twos_roundtrip, lemma_pow256_values,
    twos,
};
use crate::codec::{append_bytes, length_prefix, put_bytes, put_int, push_be, Reader};
use crate::error::{corrupt, SdbResult};
use crate::temporal::{
    chrono_day_valid, day_number_valid, duration_decodable, duration_of_total, duration_valid,
    lemma_duration_roundtrip, time_delta_parts, time_of_day_parts_valid, time_of_day_valid,
    DateTimeUtc, Duration, TimeOfDay, MAX_DURATION_NANOS, MAX_DURATION_SECS, NANOS_PER_SEC,
};
use crate::bignum::{
    bigfloat_canonical, bigfloat_from_bytes, bigint_from_signed_bytes, bigint_sign,
    bigint_signed_bytes, kept_digits, lemma_kept_canonical, lemma_signed_bytes_roundtrip,
    rational_canonical, rational_new, reduced, signed_bytes, signed_len, signed_value,
    BigFloatParts, BigFloatView, BigIntParts, RationalParts,
};
use vstd::prelude::*;
use vstd::utf8::{decode_utf8, encode_utf8, encode_utf8_decode_utf8, encode_utf8_valid_utf8, valid_utf8};

verus! {

pub const NULL_TAG: u8 = 0;
pub const BOOL_TAG: u8 = 1;
pub const I8_TAG: u8 = 2;
pub const I16_TAG: u8 = 3;
pub const I32_TAG: u8 = 4;
pub const I64_TAG: u8 = 5;
pub const I128_TAG: u8 = 6;
pub const U8_TAG: u8 = 7;
pub const U16_TAG: u8 = 8;
pub const U32_TAG: u8 = 9;
pub const U64_TAG: u8 = 10;
pub const U128_TAG: u8 = 11;
pub const F32_TAG: u8 = 12;
pub const F64_TAG: u8 = 13;
pub const STR_TAG: u8 = 14;
pub const BYTES_TAG: u8 = 15;
pub const UUID_TAG: u8 = 16;
pub const DATE_TAG: u8 = 17;
pub const TIME_TAG: u8 = 18;
pub const DATETIME_TAG: u8 = 19;
pub const DURATION_TAG: u8 = 20;
pub const BIG_INT_TAG: u8 = 21;
pub const BIG_FLOAT_ZERO_TAG: u8 = 22;
pub const BIG_FLOAT_POS_TAG: u8 = 23;
pub const BIG_FLOAT_NEG_TAG: u8 = 24;
pub const BIG_FLOAT_NAN_TAG: u8 = 25;
pub const BIG_FLOAT_INF_POS_TAG: u8 = 26;
pub const BIG_FLOAT_INF_NEG_TAG: u8 = 27;
pub const RATIONAL_TAG: u8 = 28;

/// A persisted scalar value: the content of a leaf node.
#[derive(Clone, Debug, PartialEq)]
pub enum Scalar {
    /// The absence of a value.
    Null,
    /// A boolean.
    Bool(bool),
    /// A signed 8-bit integer.
    I8(i8),
    /// A signed 16-bit integer.
    I16(i16),
    /// A signed 32-bit integer.
    I32(i32),
    /// A signed 64-bit integer.
    I64(i64),
    /// A signed 128-bit integer.
    I128(i128),
    /// An unsigned 8-bit integer.
    U8(u8),
    /// An unsigned 16-bit integer.
    U16(u16),
    /// An unsigned 32-bit integer.
    U32(u32),
    /// An unsigned 64-bit integer.
    U64(u64),
    /// An unsigned 128-bit integer.
    U128(u128),
    /// A 32-bit floating point number, by its IEEE-754 bit pattern.
    F32(u32),
    /// A 64-bit floating point number, by its IEEE-754 bit pattern.
    F64(u64),
    /// A UTF-8 string.
    Str(String),
    /// An opaque byte string.
    Bytes(Vec<u8>),
    /// A free-standing UUID value (not a node key), by its 128-bit value.
    Uuid(u128),
    /// A calendar date with no time zone, by its day number from the Common Era.
    Date(i32),
    /// A wall-clock time with no time zone.
    Time(TimeOfDay),
    /// A UTC date and time.
    DateTime(DateTimeUtc),
    /// A signed duration.
    Duration(Duration),
    /// An arbitrary-precision integer.
    BigInt(BigIntParts),
    /// A decimal big float.
    BigFloat(BigFloatParts),
    /// An arbitrary-precision rational.
    Rational(RationalParts),
}

/// The mathematical form of a [`Scalar`].
pub enum ScalarView {
    Null,
    Bool(bool),
    I8(i8),
    I16(i16),
    I32(i32),
    I64(i64),
    I128(i128),
    U8(u8),
    U16(u16),
    U32(u32),
    U64(u64),
    U128(u128),
    F32(u32),
    F64(u64),
    Str(Seq<char>),
    Bytes(Seq<u8>),
    Uuid(u128),
    Date(i32),
    Time(TimeOfDay),
    DateTime(DateTimeUtc),
    Duration(Duration),
    BigInt(int),
    BigFloat(BigFloatView),
    Rational(int, int),
}

impl View for Scalar {
    type V = ScalarView;

    open spec fn view(&self) -> ScalarView {
        match self {
            Scalar::Null => ScalarView::Null,
            Scalar::Bool(v) => ScalarView::Bool(*v),
            Scalar::I8(v) => ScalarView::I8(*v),
            Scalar::I16(v) => ScalarView::I16(*v),
            Scalar::I32(v) => ScalarView::I32(*v),
            Scalar::I64(v) => ScalarView::I64(*v),
            Scalar::I128(v) => ScalarView::I128(*v),
            Scalar::U8(v) => ScalarView::U8(*v),
            Scalar::U16(v) => ScalarView::U16(*v),
            Scalar::U32(v) => ScalarView::U32(*v),
            Scalar::U64(v) => ScalarView::U64(*v),
            Scalar::U128(v) => ScalarView::U128(*v),
            Scalar::F32(v) => ScalarView::F32(*v),
            Scalar::F64(v) => ScalarView::F64(*v),
            Scalar::Str(v) => ScalarView::Str(v@),
            Scalar::Bytes(v) => ScalarView::Bytes(v@),
            Scalar::Uuid(v) => ScalarView::Uuid(*v),
            Scalar::Date(v) => ScalarView::Date(*v),
            Scalar::Time(v) => ScalarView::Time(*v),
            Scalar::DateTime(v) => ScalarView::DateTime(*v),
            Scalar::Duration(v) => ScalarView::Duration(*v),
            Scalar::BigInt(v) => ScalarView::BigInt(v@),
            Scalar::BigFloat(v) => ScalarView::BigFloat(v@),
            Scalar::Rational(v) => ScalarView::Rational(v.numer_value(), v.denom_value()),
        }
    }
}

impl Default for Scalar {
    fn default() -> (s: Scalar)
        ensures
            s@ == ScalarView::Null,
    {
        Scalar::Null
    }
}

/// The short, stable label of a variant, used in diagnostics.
pub open spec fn type_label(v: ScalarView) -> &'static str {
    match v {
        ScalarView::Null => "null",
        ScalarView::Bool(_) => "bool",
        ScalarView::I8(_) => "i8",
        ScalarView::I16(_) => "i16",
        ScalarView::I32(_) => "i32",
        ScalarView::I64(_) => "i64",
        ScalarView::I128(_) => "i128",
        ScalarView::U8(_) => "u8",
        ScalarView::U16(_) => "u16",
        ScalarView::U32(_) => "u32",
        ScalarView::U64(_) => "u64",
        ScalarView::U128(_) => "u128",
        ScalarView::F32(_) => "f32",
        ScalarView::F64(_) => "f64",
        ScalarView::Str(_) => "str",
        ScalarView::Bytes(_) => "bytes",
        ScalarView::Uuid(_) => "uuid",
        ScalarView::Date(_) => "date",
        ScalarView::Time(_) => "time",
        ScalarView::DateTime(_) => "datetime",
        ScalarView::Duration(_) => "duration",
        ScalarView::BigInt(_) => "bigint",
        ScalarView::BigFloat(_) => "bigfloat",
        ScalarView::Rational(_, _) => "rational",
    }
}

/// A length-prefixed run.
pub open spec fn run_bytes(b: Seq<u8>) -> Seq<u8> {
    length_prefix(b.len()) + b
}

/// The exact storage encoding of a big float: a class tag, and for a finite
/// non-zero value its exponent byte and digit run.
pub open spec fn bigfloat_storage_bytes(f: BigFloatView) -> Seq<u8> {
    match f {
        BigFloatView::Zero => seq![BIG_FLOAT_ZERO_TAG],
        BigFloatView::Nan => seq![BIG_FLOAT_NAN_TAG],
        BigFloatView::InfPos => seq![BIG_FLOAT_INF_POS_TAG],
        BigFloatView::InfNeg => seq![BIG_FLOAT_INF_NEG_TAG],
        BigFloatView::Finite { negative, exponent, mantissa } => seq![
            if negative {
                BIG_FLOAT_NEG_TAG
            } else {
                BIG_FLOAT_POS_TAG
            },
        ] + signed_field(exponent as int, 1) + run_bytes(mantissa),
    }
}

/// A length-prefixed run at the front of `r`: its body and the bytes it takes.
pub open spec fn run_parse(r: Seq<u8>) -> Option<(Seq<u8>, int)> {
    if r.len() >= 4 && 4 + be_value(r.take(4)) <= r.len() {
        let n = be_value(r.take(4)) as int;
        Some((r.subrange(4, 4 + n), 4 + n))
    } else {
        None
    }
}

/// The big float `BigFloat::from_bytes` builds of a stored sign, exponent and
/// digit run.
pub open spec fn bigfloat_of_stored(negative: bool, exponent: i8, digits: Seq<u8>) -> BigFloatView {
    if kept_digits(digits).len() == 0 {
        BigFloatView::Zero
    } else {
        BigFloatView::Finite { negative, exponent, mantissa: kept_digits(digits) }
    }
}

/// Decoding the body of a big-number scalar whose tag `t` is 21 to 28.
pub open spec fn big_parse(t: u8, r: Seq<u8>) -> Option<(ScalarView, int)> {
    if t == BIG_INT_TAG {
        match run_parse(r) {
            Some((body, n)) => Some((ScalarView::BigInt(signed_value(body)), 1 + n)),
            None => None,
        }
    } else if t == BIG_FLOAT_ZERO_TAG {
        Some((ScalarView::BigFloat(BigFloatView::Zero), 1))
    } else if t == BIG_FLOAT_NAN_TAG {
        Some((ScalarView::BigFloat(BigFloatView::Nan), 1))
    } else if t == BIG_FLOAT_INF_POS_TAG {
        Some((ScalarView::BigFloat(BigFloatView::InfPos), 1))
    } else if t == BIG_FLOAT_INF_NEG_TAG {
        Some((ScalarView::BigFloat(BigFloatView::InfNeg), 1))
    } else if t == BIG_FLOAT_POS_TAG || t == BIG_FLOAT_NEG_TAG {
        if r.len() >= 1 {
            match run_parse(r.skip(1)) {
                Some((body, n)) => Some(
                    (
                        ScalarView::BigFloat(
                            bigfloat_of_stored(
                                t == BIG_FLOAT_NEG_TAG,
                                from_twos(be_value(r.take(1)), 1) as i8,
                                body,
                            ),
                        ),
                        2 + n,
                    ),
                ),
                None => None,
            }
        } else {
            None
        }
    } else {
        match run_parse(r) {
            Some((b1, n1)) => match run_parse(r.skip(n1)) {
                Some((b2, n2)) => {
                    let q = reduced(signed_value(b1), signed_value(b2));
                    Some((ScalarView::Rational(q.0, q.1), 1 + n1 + n2))
                },
                None => None,
            },
            None => None,
        }
    }
}

/// A signed field of `n` bytes, two's complement, big-endian.
pub open spec fn signed_field(v: int, n: nat) -> Seq<u8> {
    be_bytes(twos(v, n), n)
}

/// A time of day: seconds then nanoseconds, each a big-endian `u32`.
pub open spec fn time_field(t: TimeOfDay) -> Seq<u8> {
    be_bytes(t.secs as nat, 4) + be_bytes(t.nanos as nat, 4)
}

/// The exact storage encoding of a scalar: a tag byte, then the body.
pub open spec fn scalar_bytes(v: ScalarView) -> Seq<u8> {
    match v {
        ScalarView::Null => seq![NULL_TAG],
        ScalarView::Bool(b) => seq![BOOL_TAG, if b { 1u8 } else { 0u8 }],
        ScalarView::I8(x) => seq![I8_TAG] + signed_field(x as int, 1),
        ScalarView::I16(x) => seq![I16_TAG] + signed_field(x as int, 2),
        ScalarView::I32(x) => seq![I32_TAG] + signed_field(x as int, 4),
        ScalarView::I64(x) => seq![I64_TAG] + signed_field(x as int, 8),
        ScalarView::I128(x) => seq![I128_TAG] + signed_field(x as int, 16),
        ScalarView::U8(x) => seq![U8_TAG, x],
        ScalarView::U16(x) => seq![U16_TAG] + be_bytes(x as nat, 2),
        ScalarView::U32(x) => seq![U32_TAG] + be_bytes(x as nat, 4),
        ScalarView::U64(x) => seq![U64_TAG] + be_bytes(x as nat, 8),
        ScalarView::U128(x) => seq![U128_TAG] + be_bytes(x as nat, 16),
        ScalarView::F32(x) => seq![F32_TAG] + be_bytes(x as nat, 4),
        ScalarView::F64(x) => seq![F64_TAG] + be_bytes(x as nat, 8),
        ScalarView::Str(s) => seq![STR_TAG] + length_prefix(encode_utf8(s).len()) + encode_utf8(s),
        ScalarView::Bytes(b) => seq![BYTES_TAG] + length_prefix(b.len()) + b,
        ScalarView::Uuid(x) => seq![UUID_TAG] + be_bytes(x as nat, 16),
        ScalarView::Date(d) => seq![DATE_TAG] + signed_field(d as int, 4),
        ScalarView::Time(t) => seq![TIME_TAG] + time_field(t),
        ScalarView::DateTime(dt) => seq![DATETIME_TAG] + signed_field(dt.days as int, 4)
            + time_field(dt.time),
        ScalarView::Duration(d) => seq![DURATION_TAG] + signed_field(d.secs as int, 8)
            + signed_field(d.nanos as int, 4),
        ScalarView::BigInt(x) => seq![BIG_INT_TAG] + run_bytes(signed_bytes(x)),
        ScalarView::BigFloat(f) => bigfloat_storage_bytes(f),
        ScalarView::Rational(n, d) => seq![RATIONAL_TAG] + run_bytes(signed_bytes(n)) + run_bytes(
            signed_bytes(d),
        ),
    }
}

/// The big-endian value of the first `n` bytes of `r`, if there are that many.
pub open spec fn field(r: Seq<u8>, n: nat) -> Option<nat> {
    if r.len() >= n {
        Some(be_value(r.take(n as int)))
    } else {
        None
    }
}

/// The signed value of the first `n` bytes of `r`, if there are that many.
pub open spec fn signed(r: Seq<u8>, n: nat) -> Option<int> {
    match field(r, n) {
        Some(u) => Some(from_twos(u, n)),
        None => None,
    }
}

/// Decoding a fixed-width body of `n` bytes after the tag.
pub open spec fn fixed_parse(r: Seq<u8>, n: nat, v: ScalarView) -> Option<(ScalarView, int)> {
    if r.len() >= n {
        Some((v, 1 + n as int))
    } else {
        None
    }
}

/// A time of day read from the first 8 bytes of `r`, when valid.
pub open spec fn time_parse(r: Seq<u8>) -> Option<TimeOfDay> {
    if r.len() >= 8 {
        let secs = be_value(r.take(4));
        let nanos = be_value(r.subrange(4, 8));
        if time_of_day_valid(secs as u32, nanos as u32) {
            Some(TimeOfDay { secs: secs as u32, nanos: nanos as u32 })
        } else {
            None
        }
    } else {
        None
    }
}

/// What [`Scalar::decode`] reads from the front of `b`: the scalar and the
/// number of bytes it took, or `None` when the bytes are corrupt.
pub open spec fn scalar_parse(b: Seq<u8>) -> Option<(ScalarView, int)> {
    if b.len() == 0 {
        None
    } else {
        let t = b[0];
        let r = b.skip(1);
        if t == NULL_TAG {
            Some((ScalarView::Null, 1))
        } else if t == BOOL_TAG {
            if r.len() >= 1 {
                Some((ScalarView::Bool(r[0] != 0), 2))
            } else {
                None
            }
        } else if t == I8_TAG {
            fixed_parse(r, 1, ScalarView::I8(from_twos(be_value(r.take(1)), 1) as i8))
        } else if t == I16_TAG {
            fixed_parse(r, 2, ScalarView::I16(from_twos(be_value(r.take(2)), 2) as i16))
        } else if t == I32_TAG {
            fixed_parse(r, 4, ScalarView::I32(from_twos(be_value(r.take(4)), 4) as i32))
        } else if t == I64_TAG {
            fixed_parse(r, 8, ScalarView::I64(from_twos(be_value(r.take(8)), 8) as i64))
        } else if t == I128_TAG {
            fixed_parse(r, 16, ScalarView::I128(from_twos(be_value(r.take(16)), 16) as i128))
        } else if t == U8_TAG {
            fixed_parse(r, 1, ScalarView::U8(be_value(r.take(1)) as u8))
        } else if t == U16_TAG {
            fixed_parse(r, 2, ScalarView::U16(be_value(r.take(2)) as u16))
        } else if t == U32_TAG {
            fixed_parse(r, 4, ScalarView::U32(be_value(r.take(4)) as u32))
        } else if t == U64_TAG {
            fixed_parse(r, 8, ScalarView::U64(be_value(r.take(8)) as u64))
        } else if t == U128_TAG {
            fixed_parse(r, 16, ScalarView::U128(be_value(r.take(16)) as u128))
        } else if t == F32_TAG {
            fixed_parse(r, 4, ScalarView::F32(be_value(r.take(4)) as u32))
        } else if t == F64_TAG {
            fixed_parse(r, 8, ScalarView::F64(be_value(r.take(8)) as u64))
        } else if t == STR_TAG || t == BYTES_TAG {
            if r.len() >= 4 && 4 + be_value(r.take(4)) <= r.len() {
                let n = be_value(r.take(4)) as int;
                let body = r.subrange(4, 4 + n);
                if t == BYTES_TAG {
                    Some((ScalarView::Bytes(body), 5 + n))
                } else if valid_utf8(body) {
                    Some((ScalarView::Str(decode_utf8(body)), 5 + n))
                } else {
                    None
                }
            } else {
                None
            }
        } else if t == UUID_TAG {
            fixed_parse(r, 16, ScalarView::Uuid(be_value(r.take(16)) as u128))
        } else if t == DATE_TAG {
            if r.len() >= 4 && chrono_day_valid(from_twos(be_value(r.take(4)), 4) as i32) {
                Some((ScalarView::Date(from_twos(be_value(r.take(4)), 4) as i32), 5))
            } else {
                None
            }
        } else if t == TIME_TAG {
            match time_parse(r) {
                Some(time) => Some((ScalarView::Time(time), 9)),
                None => None,
            }
        } else if t == DATETIME_TAG {
            if r.len() >= 4 && chrono_day_valid(from_twos(be_value(r.take(4)), 4) as i32) {
                match time_parse(r.skip(4)) {
                    Some(time) => Some(
                        (
                            ScalarView::DateTime(
                                DateTimeUtc {
                                    days: from_twos(be_value(r.take(4)), 4) as i32,
                                    time,
                                },
                            ),
                            13,
                        ),
                    ),
                    None => None,
                }
            } else {
                None
            }
        } else if t == DURATION_TAG {
            if r.len() >= 12 {
                let secs = from_twos(be_value(r.take(8)), 8);
                let nanos = from_twos(be_value(r.subrange(8, 12)), 4);
                Some((ScalarView::Duration(duration_of_total(secs * NANOS_PER_SEC + nanos)), 13))
            } else {
                None
            }
        } else if t <= RATIONAL_TAG {
            big_parse(t, r)
        } else {
            None
        }
    }
}

/// Decoding the front of `b` would reach a duration `chrono` cannot hold, on
/// which `TimeDelta`'s constructors panic, or a rational with a zero
/// denominator, on which `Ratio::new` panics.
pub open spec fn scalar_decode_panics(b: Seq<u8>) -> bool {
    ||| {
        &&& b.len() >= 13
        &&& b[0] == DURATION_TAG
        &&& !duration_decodable(
            from_twos(be_value(b.subrange(1, 9)), 8) as i64,
            from_twos(be_value(b.subrange(9, 13)), 4) as i32,
        )
    }
    ||| {
        &&& b.len() >= 1
        &&& b[0] == RATIONAL_TAG
        &&& rational_decode_panics(b.skip(1))
    }
}

/// The two runs of a rational's body are there and the second reads as zero.
pub open spec fn rational_decode_panics(r: Seq<u8>) -> bool {
    match run_parse(r) {
        Some((_, n1)) => match run_parse(r.skip(n1)) {
            Some((b2, _)) => signed_value(b2) == 0,
            None => false,
        },
        None => false,
    }
}

/// Whether decoding `bytes` as a scalar would hit a duration the time-delta
/// type cannot hold, on which its constructor panics.
pub fn decode_panics(bytes: &[u8]) -> (b: bool)
    ensures
        b == scalar_decode_panics(bytes@),
{
    if bytes.len() >= 1 && bytes[0] == RATIONAL_TAG {
        let mut r = Reader::new(bytes);
        let _ = r.u8();
        let ghost rest = r@;
        assert(rest =~= bytes@.skip(1));
        let first = r.bytes();
        if first.is_err() {
            return false;
        }
        let ghost mid = r@;
        proof {
            assert(mid =~= rest.skip(4 + be_value(rest.take(4)) as int));
        }
        return match r.bytes() {
            Ok(den) => bigint_sign(&bigint_from_signed_bytes(den)) == 0,
            Err(_) => false,
        };
    }
    if bytes.len() < 13 || bytes[0] != DURATION_TAG {
        return false;
    }
    let mut r = Reader::new(bytes);
    let _ = r.u8();
    let ghost rest = r@;
    let secs = match r.be_int(8) {
        Ok(v) => v,
        Err(_) => {
            return false;
        },
    };
    let ghost mid = r@;
    let nanos = match r.be_int(4) {
        Ok(v) => v,
        Err(_) => {
            return false;
        },
    };
    proof {
        lemma_pow256_values();
        lemma_be_value_bound(rest.take(8));
        lemma_be_value_bound(mid.take(4));
        assert(rest.take(8) =~= bytes@.subrange(1, 9));
        assert(mid.take(4) =~= bytes@.subrange(9, 13));
    }
    let s: i64 = secs as i64;
    let n: i32 = nanos as i32;
    let total: i128 = (s as i128) * NANOS_PER_SEC + (n as i128);
    !(-MAX_DURATION_SECS <= s && s <= MAX_DURATION_SECS && -MAX_DURATION_NANOS <= total
        && total <= MAX_DURATION_NANOS)
}

/// A scalar value every field of which the storage format can carry.
pub open spec fn scalar_well_formed(v: ScalarView) -> bool {
    match v {
        ScalarView::Str(s) => encode_utf8(s).len() < 0x1_0000_0000,
        ScalarView::Bytes(b) => b.len() < 0x1_0000_0000,
        ScalarView::Date(d) => chrono_day_valid(d),
        ScalarView::Time(t) => time_of_day_valid(t.secs, t.nanos),
        ScalarView::DateTime(dt) => chrono_day_valid(dt.days) && time_of_day_valid(
            dt.time.secs,
            dt.time.nanos,
        ),
        ScalarView::Duration(d) => duration_valid(d),
        ScalarView::BigInt(x) => signed_len(x) < 0x1_0000_0000,
        ScalarView::BigFloat(f) => bigfloat_canonical(f),
        ScalarView::Rational(n, d) => rational_canonical(n, d) && signed_len(n) < 0x1_0000_0000
            && signed_len(d) < 0x1_0000_0000,
        _ => true,
    }
}

impl Scalar {
    /// A new scalar with the same value.
    pub fn duplicate(&self) -> (r: Scalar)
        ensures
            r@ == self@,
    {
        match self {
            Scalar::Str(v) => Scalar::Str(v.clone()),
            Scalar::Bytes(v) => {
                let c = v.clone();
                assert(c@ =~= v@);
                Scalar::Bytes(c)
            },
            Scalar::Null => Scalar::Null,
            Scalar::Bool(v) => Scalar::Bool(*v),
            Scalar::I8(v) => Scalar::I8(*v),
            Scalar::I16(v) => Scalar::I16(*v),
            Scalar::I32(v) => Scalar::I32(*v),
            Scalar::I64(v) => Scalar::I64(*v),
            Scalar::I128(v) => Scalar::I128(*v),
            Scalar::U8(v) => Scalar::U8(*v),
            Scalar::U16(v) => Scalar::U16(*v),
            Scalar::U32(v) => Scalar::U32(*v),
            Scalar::U64(v) => Scalar::U64(*v),
            Scalar::U128(v) => Scalar::U128(*v),
            Scalar::F32(v) => Scalar::F32(*v),
            Scalar::F64(v) => Scalar::F64(*v),
            Scalar::Uuid(v) => Scalar::Uuid(*v),
            Scalar::Date(v) => Scalar::Date(*v),
            Scalar::Time(v) => Scalar::Time(*v),
            Scalar::DateTime(v) => Scalar::DateTime(*v),
            Scalar::Duration(v) => Scalar::Duration(*v),
            Scalar::BigInt(v) => Scalar::BigInt(v.duplicate()),
            Scalar::BigFloat(v) => Scalar::BigFloat(v.duplicate()),
            Scalar::Rational(v) => Scalar::Rational(v.duplicate()),
        }
    }

    /// A short, stable label for the variant, used in diagnostics.
    pub fn type_str(&self) -> (s: &'static str)
        ensures
            s == type_label(self@),
    {
        match self {
            Scalar::Null => "null",
            Scalar::Bool(_) => "bool",
            Scalar::I8(_) => "i8",
            Scalar::I16(_) => "i16",
            Scalar::I32(_) => "i32",
            Scalar::I64(_) => "i64",
            Scalar::I128(_) => "i128",
            Scalar::U8(_) => "u8",
            Scalar::U16(_) => "u16",
            Scalar::U32(_) => "u32",
            Scalar::U64(_) => "u64",
            Scalar::U128(_) => "u128",
            Scalar::F32(_) => "f32",
            Scalar::F64(_) => "f64",
            Scalar::Str(_) => "str",
            Scalar::Bytes(_) => "bytes",
            Scalar::Uuid(_) => "uuid",
            Scalar::Date(_) => "date",
            Scalar::Time(_) => "time",
            Scalar::DateTime(_) => "datetime",
            Scalar::Duration(_) => "duration",
            Scalar::BigInt(_) => "bigint",
            Scalar::BigFloat(_) => "bigfloat",
            Scalar::Rational(_) => "rational",
        }
    }

    /// Appends the exact (round-trippable) storage encoding of this scalar.
    pub fn encode(&self, buf: &mut Vec<u8>)
        ensures
            final(buf)@ == old(buf)@ + scalar_bytes(self@),
    {
        proof {
            lemma_pow256_values();
        }
        match self {
            Scalar::Null => {
                buf.push(NULL_TAG);
            },
            Scalar::Bool(v) => {
                buf.push(BOOL_TAG);
                buf.push(if *v {
                    1
                } else {
                    0
                });
            },
            Scalar::I8(v) => {
                buf.push(I8_TAG);
                put_int(buf, *v as i128, 1);
            },
            Scalar::I16(v) => {
                buf.push(I16_TAG);
                put_int(buf, *v as i128, 2);
            },
            Scalar::I32(v) => {
                buf.push(I32_TAG);
                put_int(buf, *v as i128, 4);
            },
            Scalar::I64(v) => {
                buf.push(I64_TAG);
                put_int(buf, *v as i128, 8);
            },
            Scalar::I128(v) => {
                buf.push(I128_TAG);
                put_int(buf, *v, 16);
            },
            Scalar::U8(v) => {
                buf.push(U8_TAG);
                buf.push(*v);
            },
            Scalar::U16(v) => {
                buf.push(U16_TAG);
                push_be(buf, *v as u128, 2);
            },
            Scalar::U32(v) => {
                buf.push(U32_TAG);
                push_be(buf, *v as u128, 4);
            },
            Scalar::U64(v) => {
                buf.push(U64_TAG);
                push_be(buf, *v as u128, 8);
            },
            Scalar::U128(v) => {
                buf.push(U128_TAG);
                push_be(buf, *v, 16);
            },
            Scalar::F32(v) => {
                buf.push(F32_TAG);
                push_be(buf, *v as u128, 4);
            },
            Scalar::F64(v) => {
                buf.push(F64_TAG);
                push_be(buf, *v as u128, 8);
            },
            Scalar::Str(v) => {
                buf.push(STR_TAG);
                put_bytes(buf, v.as_str().as_bytes());
            },
            Scalar::Bytes(v) => {
                buf.push(BYTES_TAG);
                put_bytes(buf, v.as_slice());
            },
            Scalar::Uuid(v) => {
                buf.push(UUID_TAG);
                push_be(buf, *v, 16);
            },
            Scalar::Date(v) => {
                buf.push(DATE_TAG);
                put_int(buf, *v as i128, 4);
            },
            Scalar::Time(v) => {
                buf.push(TIME_TAG);
                push_be(buf, v.secs as u128, 4);
                push_be(buf, v.nanos as u128, 4);
            },
            Scalar::DateTime(v) => {
                buf.push(DATETIME_TAG);
                put_int(buf, v.days as i128, 4);
                push_be(buf, v.time.secs as u128, 4);
                push_be(buf, v.time.nanos as u128, 4);
            },
            Scalar::Duration(v) => {
                buf.push(DURATION_TAG);
                put_int(buf, v.secs as i128, 8);
                put_int(buf, v.nanos as i128, 4);
            },
            Scalar::BigInt(v) => {
                buf.push(BIG_INT_TAG);
                put_bytes(buf, bigint_signed_bytes(v).as_slice());
            },
            Scalar::BigFloat(v) => {
                encode_float(buf, v);
            },
            Scalar::Rational(v) => {
                buf.push(RATIONAL_TAG);
                put_bytes(buf, bigint_signed_bytes(v.numer()).as_slice());
                put_bytes(buf, bigint_signed_bytes(v.denom()).as_slice());
            },
        }
        assert(final(buf)@ =~= old(buf)@ + scalar_bytes(self@));
    }

    /// Decodes a scalar previously written by [`Scalar::encode`].
    pub fn decode(r: &mut Reader<'_>) -> (res: SdbResult<Scalar>)
        requires
            !scalar_decode_panics(old(r)@),
        ensures
            match scalar_parse(old(r)@) {
                Some((v, n)) => res matches Ok(s) && s@ == v && final(r)@ == old(r)@.skip(n),
                None => res matches Err(e) && e is Corrupt,
            },
    {
        let ghost b = r@;
        let tag = r.u8()?;
        assert(seq![tag] + r@ =~= b);
        if tag == NULL_TAG {
            Ok(Scalar::Null)
        } else if tag == BOOL_TAG {
            let v = r.u8()?;
            assert(b.skip(1)[0] == b[1]);
            assert(r@ =~= b.skip(2));
            Ok(Scalar::Bool(v != 0))
        } else if tag <= F64_TAG {
            decode_number(r, tag)
        } else if tag == STR_TAG || tag == BYTES_TAG {
            decode_run(r, tag)
        } else if tag == UUID_TAG {
            let v = r.be_uint(16)?;
            assert(r@ =~= b.skip(17));
            Ok(Scalar::Uuid(v))
        } else if tag <= DURATION_TAG {
            decode_temporal(r, tag)
        } else if tag <= RATIONAL_TAG {
            decode_big(r, tag)
        } else {
            Err(corrupt("unknown scalar tag"))
        }
    }
}

/// Decodes the body of a numeric scalar whose tag has been read.
fn decode_number(r: &mut Reader<'_>, tag: u8) -> (res: SdbResult<Scalar>)
    requires
        I8_TAG <= tag <= F64_TAG,
    ensures
        ({
            let b = seq![tag] + old(r)@;
            match scalar_parse(b) {
                Some((v, n)) => res matches Ok(s) && s@ == v && final(r)@ == b.skip(n),
                None => res matches Err(e) && e is Corrupt,
            }
        }),
{
    let ghost b = seq![tag] + r@;
    proof {
        assert(b.skip(1) =~= r@);
        lemma_pow256_values();
    }
    let ghost rest = r@;
    if tag == U8_TAG {
        let v = r.u8()?;
        proof {
            assert(rest.take(1) =~= seq![v]);
            assert(be_value(seq![v]) == v) by {
                assert(seq![v].drop_last() =~= Seq::<u8>::empty());
                assert(be_value(Seq::<u8>::empty()) == 0);
                assert(seq![v].last() == v);
            }
            assert(r@ =~= b.skip(2));
        }
        return Ok(Scalar::U8(v));
    }
    let n: usize = if tag == I8_TAG {
        1
    } else if tag == I16_TAG || tag == U16_TAG {
        2
    } else if tag == I32_TAG || tag == U32_TAG || tag == F32_TAG {
        4
    } else if tag == I64_TAG || tag == U64_TAG || tag == F64_TAG {
        8
    } else {
        16
    };
    proof {
        assert(r@ =~= b.skip(1));
    }
    if tag <= I128_TAG {
        let v = r.be_int(n)?;
        proof {
            lemma_be_value_bound(rest.take(n as int));
            lemma_from_twos_roundtrip(be_value(rest.take(n as int)), n as nat);
            assert(r@ =~= b.skip(1 + n));
        }
        if tag == I8_TAG {
            Ok(Scalar::I8(v as i8))
        } else if tag == I16_TAG {
            Ok(Scalar::I16(v as i16))
        } else if tag == I32_TAG {
            Ok(Scalar::I32(v as i32))
        } else if tag == I64_TAG {
            Ok(Scalar::I64(v as i64))
        } else {
            Ok(Scalar::I128(v))
        }
    } else {
        let v = r.be_uint(n)?;
        proof {
            lemma_be_value_bound(rest.take(n as int));
            assert(r@ =~= b.skip(1 + n));
        }
        if tag == U16_TAG {
            Ok(Scalar::U16(v as u16))
        } else if tag == U32_TAG {
            Ok(Scalar::U32(v as u32))
        } else if tag == U64_TAG {
            Ok(Scalar::U64(v as u64))
        } else if tag == U128_TAG {
            Ok(Scalar::U128(v))
        } else if tag == F32_TAG {
            Ok(Scalar::F32(v as u32))
        } else {
            Ok(Scalar::F64(v as u64))
        }
    }
}

/// Decodes the length-prefixed body of a string or byte-string scalar.
fn decode_run(r: &mut Reader<'_>, tag: u8) -> (res: SdbResult<Scalar>)
    requires
        tag == STR_TAG || tag == BYTES_TAG,
    ensures
        ({
            let b = seq![tag] + old(r)@;
            match scalar_parse(b) {
                Some((v, n)) => res matches Ok(s) && s@ == v && final(r)@ == b.skip(n),
                None => res matches Err(e) && e is Corrupt,
            }
        }),
{
    let ghost b = seq![tag] + r@;
    let ghost rest = r@;
    proof {
        assert(b.skip(1) =~= r@);
    }
    let bytes = r.bytes()?;
    proof {
        let n = be_value(rest.take(4)) as int;
        assert(r@ =~= b.skip(5 + n));
    }
    if tag == BYTES_TAG {
        let mut v: Vec<u8> = Vec::new();
        append_bytes(&mut v, bytes);
        assert(v@ =~= bytes@);
        Ok(Scalar::Bytes(v))
    } else {
        match utf8_str(bytes) {
            Some(s) => Ok(Scalar::Str(s.to_string())),
            None => Err(corrupt("invalid utf-8 in string scalar")),
        }
    }
}

/// Decodes the body of a date, time, date-time or duration scalar.
fn decode_temporal(r: &mut Reader<'_>, tag: u8) -> (res: SdbResult<Scalar>)
    requires
        DATE_TAG <= tag <= DURATION_TAG,
        !scalar_decode_panics(seq![tag] + old(r)@),
    ensures
        ({
            let b = seq![tag] + old(r)@;
            match scalar_parse(b) {
                Some((v, n)) => res matches Ok(s) && s@ == v && final(r)@ == b.skip(n),
                None => res matches Err(e) && e is Corrupt,
            }
        }),
{
    let ghost b = seq![tag] + r@;
    let ghost rest = r@;
    proof {
        assert(b.skip(1) =~= r@);
        lemma_pow256_values();
    }
    if tag == DATE_TAG || tag == DATETIME_TAG {
        let days = r.be_int(4)?;
        proof {
            lemma_be_value_bound(rest.take(4));
        }
        let days = days as i32;
        if !day_number_valid(days) {
            return Err(corrupt("out-of-range date scalar"));
        }
        if tag == DATE_TAG {
            assert(r@ =~= b.skip(5));
            return Ok(Scalar::Date(days));
        }
        let ghost after = r@;
        let time = decode_time(r)?;
        proof {
            assert(rest.skip(4) =~= after);
            assert(r@ =~= b.skip(13));
        }
        Ok(Scalar::DateTime(DateTimeUtc { days, time }))
    } else if tag == TIME_TAG {
        let time = decode_time(r)?;
        assert(r@ =~= b.skip(9));
        Ok(Scalar::Time(time))
    } else {
        let secs = r.be_int(8)?;
        let ghost mid = r@;
        let nanos = r.be_int(4)?;
        proof {
            lemma_be_value_bound(rest.take(8));
            lemma_be_value_bound(mid.take(4));
            assert(mid.take(4) =~= rest.subrange(8, 12));
            assert(rest.take(8) =~= b.subrange(1, 9));
            assert(rest.subrange(8, 12) =~= b.subrange(9, 13));
            assert(r@ =~= b.skip(13));
        }
        let d = time_delta_parts(secs as i64, nanos as i32);
        Ok(Scalar::Duration(d))
    }
}

/// Appends the exact storage encoding of a big float: the special values each
/// have a tag of their own; a finite non-zero value carries its sign in the
/// tag, then its exponent byte and its digit run.
pub fn encode_float(buf: &mut Vec<u8>, v: &BigFloatParts)
    ensures
        final(buf)@ == old(buf)@ + bigfloat_storage_bytes(v@),
{
    match v {
        BigFloatParts::Nan => buf.push(BIG_FLOAT_NAN_TAG),
        BigFloatParts::InfPos => buf.push(BIG_FLOAT_INF_POS_TAG),
        BigFloatParts::InfNeg => buf.push(BIG_FLOAT_INF_NEG_TAG),
        BigFloatParts::Zero => buf.push(BIG_FLOAT_ZERO_TAG),
        BigFloatParts::Finite { negative, exponent, mantissa } => {
            buf.push(
                if *negative {
                    BIG_FLOAT_NEG_TAG
                } else {
                    BIG_FLOAT_POS_TAG
                },
            );
            proof {
                lemma_pow256_values();
            }
            put_int(buf, *exponent as i128, 1);
            put_bytes(buf, mantissa.as_slice());
        },
    }
    assert(final(buf)@ =~= old(buf)@ + bigfloat_storage_bytes(v@));
}

/// Decodes the body of a big-number scalar whose tag has been read.
fn decode_big(r: &mut Reader<'_>, tag: u8) -> (res: SdbResult<Scalar>)
    requires
        BIG_INT_TAG <= tag <= RATIONAL_TAG,
        !scalar_decode_panics(seq![tag] + old(r)@),
    ensures
        ({
            let b = seq![tag] + old(r)@;
            match scalar_parse(b) {
                Some((v, n)) => res matches Ok(s) && s@ == v && final(r)@ == b.skip(n),
                None => res matches Err(e) && e is Corrupt,
            }
        }),
{
    let ghost b = seq![tag] + r@;
    let ghost rest = r@;
    proof {
        assert(b.skip(1) =~= r@);
        lemma_pow256_values();
    }
    if tag == BIG_INT_TAG {
        let bytes = r.bytes()?;
        proof {
            assert(r@ =~= b.skip(1 + 4 + be_value(rest.take(4)) as int));
        }
        Ok(Scalar::BigInt(bigint_from_signed_bytes(bytes)))
    } else if tag == BIG_FLOAT_ZERO_TAG {
        Ok(Scalar::BigFloat(BigFloatParts::Zero))
    } else if tag == BIG_FLOAT_NAN_TAG {
        Ok(Scalar::BigFloat(BigFloatParts::Nan))
    } else if tag == BIG_FLOAT_INF_POS_TAG {
        Ok(Scalar::BigFloat(BigFloatParts::InfPos))
    } else if tag == BIG_FLOAT_INF_NEG_TAG {
        Ok(Scalar::BigFloat(BigFloatParts::InfNeg))
    } else if tag == BIG_FLOAT_POS_TAG || tag == BIG_FLOAT_NEG_TAG {
        let e = r.be_int(1)?;
        let ghost after = r@;
        proof {
            lemma_be_value_bound(rest.take(1));
            assert(after =~= rest.skip(1));
        }
        let digits = r.bytes()?;
        proof {
            assert(r@ =~= b.skip(2 + 4 + be_value(after.take(4)) as int));
        }
        let (negative, exponent, mantissa) = bigfloat_from_bytes(
            digits,
            tag == BIG_FLOAT_NEG_TAG,
            e as i8,
        );
        if mantissa.len() == 0 {
            Ok(Scalar::BigFloat(BigFloatParts::Zero))
        } else {
            Ok(Scalar::BigFloat(BigFloatParts::Finite { negative, exponent, mantissa }))
        }
    } else {
        let nb = r.bytes()?;
        let ghost mid = r@;
        proof {
            assert(mid =~= rest.skip(4 + be_value(rest.take(4)) as int));
        }
        let db = r.bytes()?;
        proof {
            assert(r@ =~= b.skip(
                1 + (4 + be_value(rest.take(4)) as int) + (4 + be_value(mid.take(4)) as int),
            ));
        }
        let numer = bigint_from_signed_bytes(nb);
        let denom = bigint_from_signed_bytes(db);
        proof {
            assert(b[0] == RATIONAL_TAG);
            assert(b.skip(1) =~= rest);
        }
        Ok(Scalar::Rational(rational_new(&numer, &denom)))
    }
}

/// Reads a time of day (seconds, then nanoseconds), rejecting one the clock
/// cannot represent.
fn decode_time(r: &mut Reader<'_>) -> (res: SdbResult<TimeOfDay>)
    ensures
        match time_parse(old(r)@) {
            Some(t) => res matches Ok(x) && x == t && final(r)@ == old(r)@.skip(8),
            None => res matches Err(e) && e is Corrupt,
        },
{
    let ghost rest = r@;
    let secs = r.u32()?;
    let ghost mid = r@;
    let nanos = r.u32()?;
    proof {
        assert(mid.take(4) =~= rest.subrange(4, 8));
        assert(r@ =~= rest.skip(8));
    }
    if !time_of_day_parts_valid(secs, nanos) {
        return Err(corrupt("out-of-range time scalar"));
    }
    Ok(TimeOfDay { secs, nanos })
}

/// `std::str::from_utf8`, as an `Option`: `Some` exactly when the bytes are
/// well-formed UTF-8, holding the characters they spell.
#[verifier::external_body]
pub(crate) fn utf8_str(bytes: &[u8]) -> (r: Option<&str>)
    ensures
        match r {
            Some(s) => valid_utf8(bytes@) && s@ == decode_utf8(bytes@),
            None => !valid_utf8(bytes@),
        },
{
    std::str::from_utf8(bytes).ok()
}

/// An `n`-byte big-endian field followed by anything reads back as `x`.
proof fn lemma_field(x: nat, n: nat, rest: Seq<u8>)
    requires
        x < pow256(n),
    ensures
        (be_bytes(x, n) + rest).len() >= n,
        (be_bytes(x, n) + rest).take(n as int) == be_bytes(x, n),
        be_value((be_bytes(x, n) + rest).take(n as int)) == x,
        (be_bytes(x, n) + rest).skip(n as int) == rest,
{
    lemma_be_bytes_len(x, n);
    lemma_be_value_of_bytes(x, n);
    assert((be_bytes(x, n) + rest).take(n as int) =~= be_bytes(x, n));
    assert((be_bytes(x, n) + rest).skip(n as int) =~= rest);
}

/// A signed `n`-byte field followed by anything reads back as `v`.
proof fn lemma_signed_field(v: int, n: nat, rest: Seq<u8>)
    requires
        int_fits(v, n),
    ensures
        (signed_field(v, n) + rest).len() >= n,
        from_twos(be_value((signed_field(v, n) + rest).take(n as int)), n) == v,
        (signed_field(v, n) + rest).skip(n as int) == rest,
{
    lemma_twos_roundtrip(v, n);
    lemma_field(twos(v, n), n, rest);
}

/// Round trip of the fixed-width numeric and UUID scalars.
proof fn lemma_roundtrip_fixed(v: ScalarView, rest: Seq<u8>)
    requires
        scalar_well_formed(v),
        v is I8 || v is I16 || v is I32 || v is I64 || v is I128 || v is U8 || v is U16 || v is U32 || v is U64 || v is U128 || v is F32 || v is F64 || v is Uuid,
    ensures
        scalar_parse(scalar_bytes(v) + rest) == Some((v, scalar_bytes(v).len() as int)),
        !scalar_decode_panics(scalar_bytes(v) + rest),
{
    lemma_pow256_values();
    let e = scalar_bytes(v);
    let b = e + rest;
    let body = e.skip(1);
    assert(b[0] == e[0]);
    assert(b.skip(1) =~= body + rest);
    match v {
        ScalarView::I8(x) => {
            assert(body =~= signed_field(x as int, 1));
            lemma_signed_field(x as int, 1, rest);
        },
        ScalarView::I16(x) => {
            assert(body =~= signed_field(x as int, 2));
            lemma_signed_field(x as int, 2, rest);
        },
        ScalarView::I32(x) => {
            assert(body =~= signed_field(x as int, 4));
            lemma_signed_field(x as int, 4, rest);
        },
        ScalarView::I64(x) => {
            assert(body =~= signed_field(x as int, 8));
            lemma_signed_field(x as int, 8, rest);
        },
        ScalarView::I128(x) => {
            assert(body =~= signed_field(x as int, 16));
            lemma_signed_field(x as int, 16, rest);
        },
        ScalarView::U8(x) => {
            assert(body =~= be_bytes(x as nat, 1)) by {
                reveal_with_fuel(be_bytes, 2);
            }
            lemma_field(x as nat, 1, rest);
        },
        ScalarView::U16(x) => {
            assert(body =~= be_bytes(x as nat, 2));
            lemma_field(x as nat, 2, rest);
        },
        ScalarView::U32(x) => {
            assert(body =~= be_bytes(x as nat, 4));
            lemma_field(x as nat, 4, rest);
        },
        ScalarView::U64(x) => {
            assert(body =~= be_bytes(x as nat, 8));
            lemma_field(x as nat, 8, rest);
        },
        ScalarView::U128(x) => {
            assert(body =~= be_bytes(x as nat, 16));
            lemma_field(x as nat, 16, rest);
        },
        ScalarView::F32(x) => {
            assert(body =~= be_bytes(x as nat, 4));
            lemma_field(x as nat, 4, rest);
        },
        ScalarView::F64(x) => {
            assert(body =~= be_bytes(x as nat, 8));
            lemma_field(x as nat, 8, rest);
        },
        ScalarView::Uuid(x) => {
            assert(body =~= be_bytes(x as nat, 16));
            lemma_field(x as nat, 16, rest);
        },
        _ => {},
    }
}

/// Round trip of the length-prefixed string and byte-string scalars.
proof fn lemma_roundtrip_run(v: ScalarView, rest: Seq<u8>)
    requires
        scalar_well_formed(v),
        v is Str || v is Bytes,
    ensures
        scalar_parse(scalar_bytes(v) + rest) == Some((v, scalar_bytes(v).len() as int)),
        !scalar_decode_panics(scalar_bytes(v) + rest),
{
    match v {
        ScalarView::Str(s) => lemma_roundtrip_str(s, rest),
        ScalarView::Bytes(u) => lemma_roundtrip_bytes(u, rest),
        _ => {},
    }
}

#[verifier::rlimit(30)]
proof fn lemma_roundtrip_str(s: Seq<char>, rest: Seq<u8>)
    requires
        scalar_well_formed(ScalarView::Str(s)),
    ensures
        scalar_parse(scalar_bytes(ScalarView::Str(s)) + rest) == Some(
            (ScalarView::Str(s), scalar_bytes(ScalarView::Str(s)).len() as int),
        ),
        !scalar_decode_panics(scalar_bytes(ScalarView::Str(s)) + rest),
{
    lemma_pow256_values();
    let e = scalar_bytes(ScalarView::Str(s));
    let b = e + rest;
    let body = e.skip(1);
    assert(b[0] == e[0]);
    assert(b.skip(1) =~= body + rest);
    let u = encode_utf8(s);
    encode_utf8_valid_utf8(s);
    encode_utf8_decode_utf8(s);
    assert(body =~= be_bytes(u.len() as nat, 4) + u);
    lemma_field(u.len() as nat, 4, u + rest);
    assert(body + rest =~= be_bytes(u.len() as nat, 4) + (u + rest));
    assert((u + rest).subrange(0, u.len() as int) =~= u);
    assert((body + rest).subrange(4, 4 + u.len() as int) =~= u);
}

#[verifier::rlimit(30)]
proof fn lemma_roundtrip_bytes(u: Seq<u8>, rest: Seq<u8>)
    requires
        scalar_well_formed(ScalarView::Bytes(u)),
    ensures
        scalar_parse(scalar_bytes(ScalarView::Bytes(u)) + rest) == Some(
            (ScalarView::Bytes(u), scalar_bytes(ScalarView::Bytes(u)).len() as int),
        ),
        !scalar_decode_panics(scalar_bytes(ScalarView::Bytes(u)) + rest),
{
    lemma_pow256_values();
    let e = scalar_bytes(ScalarView::Bytes(u));
    let b = e + rest;
    let body = e.skip(1);
    assert(b[0] == e[0]);
    assert(b.skip(1) =~= body + rest);
    assert(body =~= be_bytes(u.len() as nat, 4) + u);
    lemma_field(u.len() as nat, 4, u + rest);
    assert(body + rest =~= be_bytes(u.len() as nat, 4) + (u + rest));
    assert((body + rest).subrange(4, 4 + u.len() as int) =~= u);
}

/// Round trip of the temporal scalars.
proof fn lemma_roundtrip_temporal(v: ScalarView, rest: Seq<u8>)
    requires
        scalar_well_formed(v),
        v is Date || v is Time || v is DateTime || v is Duration,
    ensures
        scalar_parse(scalar_bytes(v) + rest) == Some((v, scalar_bytes(v).len() as int)),
        !scalar_decode_panics(scalar_bytes(v) + rest),
{
    lemma_pow256_values();
    let e = scalar_bytes(v);
    let b = e + rest;
    let body = e.skip(1);
    assert(b[0] == e[0]);
    assert(b.skip(1) =~= body + rest);
    match v {
        ScalarView::Date(d) => {
            assert(body =~= signed_field(d as int, 4));
            lemma_signed_field(d as int, 4, rest);
        },
        ScalarView::Time(t) => {
            assert(body + rest =~= be_bytes(t.secs as nat, 4) + (be_bytes(t.nanos as nat, 4) + rest));
            lemma_field(t.secs as nat, 4, be_bytes(t.nanos as nat, 4) + rest);
            lemma_field(t.nanos as nat, 4, rest);
            assert((body + rest).subrange(4, 8) =~= be_bytes(t.nanos as nat, 4));
        },
        ScalarView::DateTime(dt) => {
            let t = dt.time;
            let tail = be_bytes(t.secs as nat, 4) + (be_bytes(t.nanos as nat, 4) + rest);
            assert(body + rest =~= signed_field(dt.days as int, 4) + tail);
            lemma_signed_field(dt.days as int, 4, tail);
            lemma_field(t.secs as nat, 4, be_bytes(t.nanos as nat, 4) + rest);
            lemma_field(t.nanos as nat, 4, rest);
            assert(tail.subrange(4, 8) =~= be_bytes(t.nanos as nat, 4));
            assert((body + rest).skip(4) =~= tail);
        },
        ScalarView::Duration(d) => {
            lemma_duration_roundtrip(d);
            let tail = signed_field(d.nanos as int, 4) + rest;
            assert(body + rest =~= signed_field(d.secs as int, 8) + tail);
            lemma_signed_field(d.secs as int, 8, tail);
            lemma_signed_field(d.nanos as int, 4, rest);
            lemma_be_bytes_len(twos(d.nanos as int, 4), 4);
            assert((body + rest).subrange(8, 12) =~= tail.take(4));
            assert(b.subrange(1, 9) =~= (body + rest).take(8));
            assert(b.subrange(9, 13) =~= tail.take(4));
        },
        _ => {},
    }
}

/// A length-prefixed run followed by anything reads back as the run.
proof fn lemma_run(body: Seq<u8>, rest: Seq<u8>)
    requires
        body.len() < 0x1_0000_0000,
    ensures
        run_parse(run_bytes(body) + rest) == Some((body, 4 + body.len() as int)),
        (run_bytes(body) + rest).skip(4 + body.len() as int) == rest,
{
    lemma_pow256_values();
    let b = run_bytes(body) + rest;
    assert(b =~= be_bytes(body.len() as nat, 4) + (body + rest));
    lemma_field(body.len() as nat, 4, body + rest);
    assert(b.subrange(4, 4 + body.len() as int) =~= body);
    assert(b.skip(4 + body.len() as int) =~= rest);
}

/// Round trip of the big integers.
proof fn lemma_roundtrip_bigint(x: int, rest: Seq<u8>)
    requires
        scalar_well_formed(ScalarView::BigInt(x)),
    ensures
        scalar_parse(scalar_bytes(ScalarView::BigInt(x)) + rest) == Some(
            (ScalarView::BigInt(x), scalar_bytes(ScalarView::BigInt(x)).len() as int),
        ),
        !scalar_decode_panics(scalar_bytes(ScalarView::BigInt(x)) + rest),
{
    let e = scalar_bytes(ScalarView::BigInt(x));
    let b = e + rest;
    assert(b[0] == BIG_INT_TAG);
    lemma_signed_bytes_roundtrip(x);
    let sb = signed_bytes(x);
    assert(b.skip(1) =~= run_bytes(sb) + rest);
    lemma_run(sb, rest);
}

/// Round trip of the big floats.
proof fn lemma_roundtrip_bigfloat(f: BigFloatView, rest: Seq<u8>)
    requires
        scalar_well_formed(ScalarView::BigFloat(f)),
    ensures
        scalar_parse(scalar_bytes(ScalarView::BigFloat(f)) + rest) == Some(
            (ScalarView::BigFloat(f), scalar_bytes(ScalarView::BigFloat(f)).len() as int),
        ),
        !scalar_decode_panics(scalar_bytes(ScalarView::BigFloat(f)) + rest),
{
    lemma_pow256_values();
    let e = scalar_bytes(ScalarView::BigFloat(f));
    let b = e + rest;
    assert(b[0] == e[0]);
    match f {
        BigFloatView::Finite { negative, exponent, mantissa } => {
            lemma_kept_canonical(mantissa);
            let tail = run_bytes(mantissa) + rest;
            assert(b.skip(1) =~= signed_field(exponent as int, 1) + tail);
            lemma_signed_field(exponent as int, 1, tail);
            lemma_run(mantissa, rest);
            assert(b.skip(1).skip(1) =~= tail);
        },
        _ => {},
    }
}

/// Round trip of the rationals.
proof fn lemma_roundtrip_rational(n: int, d: int, rest: Seq<u8>)
    requires
        scalar_well_formed(ScalarView::Rational(n, d)),
    ensures
        scalar_parse(scalar_bytes(ScalarView::Rational(n, d)) + rest) == Some(
            (ScalarView::Rational(n, d), scalar_bytes(ScalarView::Rational(n, d)).len() as int),
        ),
        !scalar_decode_panics(scalar_bytes(ScalarView::Rational(n, d)) + rest),
{
    let e = scalar_bytes(ScalarView::Rational(n, d));
    let b = e + rest;
    assert(b[0] == RATIONAL_TAG);
    lemma_signed_bytes_roundtrip(n);
    lemma_signed_bytes_roundtrip(d);
    let sn = signed_bytes(n);
    let sd = signed_bytes(d);
    assert(b.skip(1) =~= run_bytes(sn) + (run_bytes(sd) + rest));
    lemma_run(sn, run_bytes(sd) + rest);
    lemma_run(sd, rest);
    assert(reduced(n, d) == (n, d));
}

/// Storage round trip: decoding the encoding of a well-formed scalar, followed
/// by any bytes, gives the scalar back, consumes exactly its encoding, and never
/// reaches the decoder's panicking duration case.
pub proof fn lemma_scalar_roundtrip(v: ScalarView, rest: Seq<u8>)
    requires
        scalar_well_formed(v),
    ensures
        scalar_parse(scalar_bytes(v) + rest) == Some((v, scalar_bytes(v).len() as int)),
        !scalar_decode_panics(scalar_bytes(v) + rest),
{
    match v {
        ScalarView::Null => {
            assert((scalar_bytes(v) + rest)[0] == NULL_TAG);
        },
        ScalarView::Bool(x) => {
            assert((scalar_bytes(v) + rest)[0] == BOOL_TAG);
            assert((scalar_bytes(v) + rest).skip(1)[0] == (if x { 1u8 } else { 0u8 }));
        },
        ScalarView::Str(_) | ScalarView::Bytes(_) => lemma_roundtrip_run(v, rest),
        ScalarView::Date(_) | ScalarView::Time(_) | ScalarView::DateTime(_) | ScalarView::Duration(
            _,
        ) => lemma_roundtrip_temporal(v, rest),
        ScalarView::BigInt(x) => lemma_roundtrip_bigint(x, rest),
        ScalarView::BigFloat(f) => lemma_roundtrip_bigfloat(f, rest),
        ScalarView::Rational(n, d) => lemma_roundtrip_rational(n, d, rest),
        _ => lemma_roundtrip_fixed(v, rest),
    }
}

} // verus!
