use num_bigfloat::{BigFloat, INF_NEG, INF_POS, NAN, ZERO};
use num_bigint::{BigInt, Sign};
use stratodb::bignum::{continued_fraction, BigFloatParts, BigIntParts, RationalParts};
use stratodb::codec::{put_bytes, Reader};
use stratodb::export::scalar::{write_scalar, FloatBits};
use stratodb::ordered::encode_scalar;
use stratodb::scalar::{decode_panics, Scalar, RATIONAL_TAG};
use stratodb::SdbError;

fn int_parts(v: &BigInt) -> BigIntParts {
    let (sign, magnitude) = v.to_bytes_be();
    BigIntParts { negative: sign == Sign::Minus, magnitude }
}

fn big(v: i64) -> BigIntParts {
    int_parts(&BigInt::from(v))
}

fn float_parts(v: &BigFloat) -> BigFloatParts {
    if v.is_nan() {
        BigFloatParts::Nan
    } else if v.is_inf_pos() {
        BigFloatParts::InfPos
    } else if v.is_inf_neg() {
        BigFloatParts::InfNeg
    } else if v.is_zero() {
        BigFloatParts::Zero
    } else {
        let mut mantissa = vec![0u8; v.get_mantissa_len()];
        v.get_mantissa_bytes(&mut mantissa);
        BigFloatParts::Finite { negative: v.is_negative(), exponent: v.get_exponent(), mantissa }
    }
}

fn bigint(v: &BigInt) -> Scalar {
    Scalar::BigInt(int_parts(v))
}

fn bigfloat(v: &BigFloat) -> Scalar {
    Scalar::BigFloat(float_parts(v))
}

fn rational(n: i64, d: i64) -> Scalar {
    Scalar::Rational(RationalParts::new(&big(n), &big(d)))
}

fn roundtrip(scalar: Scalar) {
    let mut buf = Vec::new();
    scalar.encode(&mut buf);

    let mut reader = Reader::new(&buf);
    let decoded = Scalar::decode(&mut reader).expect("decode");

    assert!(reader.is_empty(), "trailing bytes for {scalar:?}");
    assert_eq!(scalar, decoded);
}

fn asc(scalar: &Scalar) -> Vec<u8> {
    let mut out = Vec::new();
    encode_scalar(&mut out, scalar, false);
    out
}

fn desc(scalar: &Scalar) -> Vec<u8> {
    let mut out = Vec::new();
    encode_scalar(&mut out, scalar, true);
    out
}

fn assert_ordered(sorted: &[Scalar]) {
    for pair in sorted.windows(2) {
        let (lo, hi) = (&pair[0], &pair[1]);
        assert!(asc(lo) < asc(hi), "ascending: {lo:?} should encode below {hi:?}");
        assert!(desc(lo) > desc(hi), "descending: {lo:?} should encode above {hi:?}");
    }
}

fn float_text(x: FloatBits) -> String {
    match x {
        FloatBits::F32(bits) => f32::from_bits(bits).to_string(),
        FloatBits::F64(bits) => f64::from_bits(bits).to_string(),
    }
}

fn render(scalar: Scalar) -> String {
    let mut out = String::new();
    write_scalar(&mut out, &scalar, &float_text);
    out
}

#[test]
fn type_str_labels_bigint() {
    assert_eq!(bigint(&BigInt::from(0)).type_str(), "bigint");
}

#[test]
fn type_str_labels_bigfloat() {
    assert_eq!(bigfloat(&ZERO).type_str(), "bigfloat");
}

#[test]
fn type_str_labels_rational() {
    assert_eq!(rational(0, 1).type_str(), "rational");
}

#[test]
fn bigint_scalar_roundtrips() {
    let huge = BigInt::parse_bytes(b"123456789012345678901234567890", 10).unwrap();

    roundtrip(bigint(&BigInt::from(0)));
    roundtrip(bigint(&BigInt::from(127)));
    roundtrip(bigint(&BigInt::from(128)));
    roundtrip(bigint(&BigInt::from(-129)));
    roundtrip(bigint(&huge));
    roundtrip(bigint(&-huge));
}

#[test]
fn rational_scalar_roundtrips() {
    roundtrip(rational(0, 1));
    roundtrip(rational(1, 3));
    roundtrip(rational(-7, 2));
}

#[test]
fn bigfloat_scalar_roundtrips() {
    roundtrip(bigfloat(&ZERO));
    roundtrip(bigfloat(&BigFloat::from_f64(123.42)));
    roundtrip(bigfloat(&BigFloat::from_f64(-123.42)));
    roundtrip(bigfloat(&INF_POS));
    roundtrip(bigfloat(&INF_NEG));

    let mut buf = Vec::new();
    bigfloat(&NAN).encode(&mut buf);

    let decoded = Scalar::decode(&mut Reader::new(&buf)).expect("decode");
    assert!(matches!(decoded, Scalar::BigFloat(BigFloatParts::Nan)));
}

#[test]
fn big_float_renders_as_a_literal_or_null() {
    let finite = render(bigfloat(&BigFloat::from_f64(1.5)));
    assert!(finite.starts_with("1.5"), "got {finite}");

    assert_eq!(render(bigfloat(&NAN)), "null");
    assert_eq!(render(bigfloat(&INF_POS)), "null");
}

#[test]
fn big_integers_and_rationals_render_exactly() {
    let huge = BigInt::parse_bytes(b"-123456789012345678901234567890", 10).unwrap();
    assert_eq!(render(bigint(&huge)), "-123456789012345678901234567890");
    assert_eq!(render(bigint(&BigInt::from(0))), "0");
    assert_eq!(render(rational(-6, 4)), "\"-3/2\"");
    assert_eq!(render(rational(0, 5)), "\"0/1\"");
}

#[test]
fn bigints_order() {
    let huge = BigInt::parse_bytes(b"123456789012345678901234567890", 10).unwrap();

    assert_ordered(&[
        bigint(&-huge.clone()),
        bigint(&BigInt::from(-257)),
        bigint(&BigInt::from(-256)),
        bigint(&BigInt::from(-129)),
        bigint(&BigInt::from(-128)),
        bigint(&BigInt::from(-1)),
        bigint(&BigInt::from(0)),
        bigint(&BigInt::from(1)),
        bigint(&BigInt::from(127)),
        bigint(&BigInt::from(128)),
        bigint(&BigInt::from(255)),
        bigint(&BigInt::from(256)),
        bigint(&huge),
    ]);
}

#[test]
fn bigfloats_order() {
    let bf = |s: &str| bigfloat(&BigFloat::parse(s).unwrap());

    assert_ordered(&[
        bigfloat(&INF_NEG),
        bf("-1000"),
        bf("-100.5"),
        bf("-1"),
        bf("-0.01"),
        bf("-0.001"),
        bf("0"),
        bf("0.001"),
        bf("0.01"),
        bf("0.1"),
        bf("1"),
        bf("1.5"),
        bf("2"),
        bf("10"),
        bf("100.5"),
        bf("1000"),
        bigfloat(&INF_POS),
    ]);

    assert_eq!(asc(&bigfloat(&NAN)), vec![27]);
}

#[test]
fn rationals_order() {
    assert_ordered(&[
        rational(-2, 1),
        rational(-3, 2),
        rational(-1, 1),
        rational(-1, 2),
        rational(-1, 3),
        rational(0, 1),
        rational(1, 100),
        rational(1, 3),
        rational(1, 2),
        rational(2, 3),
        rational(1, 1),
        rational(3, 2),
        rational(2, 1),
        rational(100, 1),
    ]);
}

#[test]
fn equal_big_floats_with_trailing_zeros_share_a_key() {
    let short = Scalar::BigFloat(BigFloatParts::Finite {
        negative: false,
        exponent: -1,
        mantissa: vec![1, 5],
    });
    let long = Scalar::BigFloat(BigFloatParts::Finite {
        negative: false,
        exponent: -3,
        mantissa: vec![1, 5, 0, 0],
    });
    assert_eq!(asc(&short), asc(&long));
}

#[test]
fn continued_fractions_are_canonical() {
    let terms: Vec<BigInt> = continued_fraction(&big(-7), &big(3))
        .iter()
        .map(|t| {
            let sign = if t.negative { Sign::Minus } else { Sign::Plus };
            BigInt::from_bytes_be(sign, &t.magnitude)
        })
        .collect();
    assert_eq!(terms, vec![BigInt::from(-3), BigInt::from(1), BigInt::from(2)]);

    let whole: Vec<BigIntParts> = continued_fraction(&big(6), &big(3));
    assert_eq!(whole.len(), 1);
    assert_eq!(whole[0].magnitude, vec![2]);
}

#[test]
fn reduced_fractions_are_equal() {
    assert_eq!(rational(2, 4), rational(1, 2));
    assert_eq!(rational(3, -6), rational(-1, 2));
}

#[test]
fn a_stored_rational_with_a_zero_denominator_would_panic() {
    let mut buf = vec![RATIONAL_TAG];
    put_bytes(&mut buf, &[1]);
    put_bytes(&mut buf, &[0]);
    assert!(decode_panics(&buf));

    let mut ok = vec![RATIONAL_TAG];
    put_bytes(&mut ok, &[1]);
    put_bytes(&mut ok, &[2]);
    assert!(!decode_panics(&ok));
    let decoded = Scalar::decode(&mut Reader::new(&ok)).expect("decode");
    assert_eq!(decoded, rational(1, 2));
}

#[test]
fn a_truncated_big_number_is_corrupt() {
    let buf = vec![21u8, 0, 0, 0, 5, 1];
    let err = Scalar::decode(&mut Reader::new(&buf)).unwrap_err();
    assert!(matches!(err, SdbError::Corrupt(_)));
}
