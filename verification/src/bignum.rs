//! The big-number scalars as plain values, and the calls into `num-bigint`,
//! `num-rational` and `num-bigfloat` that compute on them.
//!
//! A big integer is held by its sign and big-endian magnitude, a decimal big
//! float by its class, sign, exponent and decimal digits, and a rational by its
//! numerator and denominator. The storage and index encodings read these parts;
//! what only the outside crates compute (two's-complement bytes, reduction of a
//! fraction, the arithmetic of the continued fraction, decimal texts) goes
//! through the wrappers below.

use crate::bytes::{
    be_bytes, be_value, from_twos, int_fits, lemma_be_bytes_len, lemma_be_value_of_bytes,
    lemma_twos_roundtrip, pow256, twos,
};
use num_bigfloat::BigFloat;
use num_bigint::{BigInt, Sign};
use num_rational::BigRational;
use vstd::arithmetic::div_mod::{lemma_fundamental_div_mod, lemma_fundamental_div_mod_converse};
use vstd::prelude::*;

verus! {

// ---------------------------------------------------------------------------
// Big integers
// ---------------------------------------------------------------------------

/// A big integer: its sign and big-endian magnitude. Leading zero bytes and a
/// negative zero are allowed and mean what they say.
#[derive(Clone, Debug, PartialEq, Eq)]
pub struct BigIntParts {
    pub negative: bool,
    pub magnitude: Vec<u8>,
}

/// The integer a sign and a big-endian magnitude stand for.
pub open spec fn signed_magnitude(negative: bool, magnitude: Seq<u8>) -> int {
    if negative {
        -(be_value(magnitude) as int)
    } else {
        be_value(magnitude) as int
    }
}

impl View for BigIntParts {
    type V = int;

    open spec fn view(&self) -> int {
        signed_magnitude(self.negative, self.magnitude@)
    }
}

impl BigIntParts {
    /// A new value with the same parts.
    pub fn duplicate(&self) -> (r: BigIntParts)
        ensures
            r.negative == self.negative,
            r.magnitude@ == self.magnitude@,
    {
        let m = self.magnitude.clone();
        assert(m@ =~= self.magnitude@);
        BigIntParts { negative: self.negative, magnitude: m }
    }
}

/// The number of bytes of the shortest two's-complement form of `v` (at
/// least one).
pub open spec fn signed_len(v: int) -> nat
    decreases (if v >= 0 {
        v
    } else {
        -v - 1
    }),
{
    if -128 <= v < 128 {
        1
    } else {
        1 + signed_len(v / 256)
    }
}

/// The shortest two's-complement big-endian bytes of `v`.
pub open spec fn signed_bytes(v: int) -> Seq<u8> {
    be_bytes(twos(v, signed_len(v)), signed_len(v))
}

/// The integer a big-endian two's-complement byte string stands for (the
/// empty string is zero).
pub open spec fn signed_value(b: Seq<u8>) -> int {
    if b.len() == 0 {
        0
    } else {
        from_twos(be_value(b), b.len())
    }
}

/// The number of bytes of `x` with its leading zero bytes left out.
pub open spec fn len_bytes_count(x: nat) -> nat
    decreases x,
{
    if x == 0 {
        0
    } else {
        1 + len_bytes_count(x / 256)
    }
}

/// The shortest big-endian bytes of `x`; a single zero byte for zero.
pub open spec fn magnitude_bytes(x: nat) -> Seq<u8> {
    if x == 0 {
        seq![0u8]
    } else {
        be_bytes(x, len_bytes_count(x))
    }
}

/// `|v|`.
pub open spec fn abs(v: int) -> nat {
    if v < 0 {
        (-v) as nat
    } else {
        v as nat
    }
}

/// Division rounding toward zero, as Rust's `/` on integers.
pub open spec fn trunc_div(a: int, b: int) -> int {
    if (a < 0) == (b < 0) {
        (abs(a) / abs(b)) as int
    } else {
        -((abs(a) / abs(b)) as int)
    }
}

proof fn lemma_signed_len_fits(v: int)
    ensures
        signed_len(v) >= 1,
        int_fits(v, signed_len(v)),
    decreases (if v >= 0 {
        v
    } else {
        -v - 1
    }),
{
    reveal_with_fuel(pow256, 2);
    if !(-128 <= v < 128) {
        let w = v / 256;
        lemma_fundamental_div_mod(v, 256);
        lemma_signed_len_fits(w);
        let l = signed_len(w);
        let p = pow256(l);
        assert(pow256(l + 1) == 256 * p);
        assert(p % 2 == 0) by {
            crate::bytes::lemma_pow256_positive((l - 1) as nat);
            assert(pow256(l) == 256 * pow256((l - 1) as nat));
        }
        assert(-(256 * p) <= 2 * v < 256 * p) by (nonlinear_arith)
            requires
                -p <= 2 * w < p,
                p % 2 == 0,
                v == 256 * w + v % 256,
                0 <= v % 256 < 256,
        ;
    }
}

/// The shortest two's-complement bytes read back as the integer.
pub proof fn lemma_signed_bytes_roundtrip(v: int)
    ensures
        signed_bytes(v).len() == signed_len(v),
        signed_len(v) >= 1,
        signed_value(signed_bytes(v)) == v,
{
    lemma_signed_len_fits(v);
    let l = signed_len(v);
    lemma_twos_roundtrip(v, l);
    lemma_be_bytes_len(twos(v, l), l);
    lemma_be_value_of_bytes(twos(v, l), l);
}

/// The sign of `v`: -1, 0 or 1.
pub open spec fn signum(v: int) -> i8 {
    if v < 0 {
        -1i8
    } else if v == 0 {
        0i8
    } else {
        1i8
    }
}

/// `BigInt::from_bytes_be` then `to_signed_bytes_be`: the shortest
/// two's-complement big-endian bytes of the integer (one zero byte for zero).
#[verifier::external_body]
pub(crate) fn bigint_signed_bytes(v: &BigIntParts) -> (r: Vec<u8>)
    ensures
        r@ == signed_bytes(v@),
{
    let sign = if v.negative { Sign::Minus } else { Sign::Plus };
    BigInt::from_bytes_be(sign, &v.magnitude).to_signed_bytes_be()
}

/// `BigInt::from_signed_bytes_be`, read back through `to_bytes_be` as sign
/// and magnitude: the two's-complement value of the bytes (zero when empty).
#[verifier::external_body]
pub(crate) fn bigint_from_signed_bytes(b: &[u8]) -> (r: BigIntParts)
    ensures
        r@ == signed_value(b@),
{
    let (sign, magnitude) = BigInt::from_signed_bytes_be(b).to_bytes_be();
    BigIntParts { negative: sign == Sign::Minus, magnitude }
}

/// `BigInt::sign`: -1, 0 or 1 as the integer is negative, zero or positive.
#[verifier::external_body]
pub(crate) fn bigint_sign(v: &BigIntParts) -> (r: i8)
    ensures
        r == signum(v@),
{
    let sign = if v.negative { Sign::Minus } else { Sign::Plus };
    match BigInt::from_bytes_be(sign, &v.magnitude).sign() {
        Sign::Minus => -1,
        Sign::NoSign => 0,
        Sign::Plus => 1,
    }
}

/// `BigInt::magnitude().to_bytes_be()`: the shortest big-endian bytes of the
/// integer's absolute value (one zero byte for zero).
#[verifier::external_body]
pub(crate) fn bigint_magnitude(v: &BigIntParts) -> (r: Vec<u8>)
    ensures
        r@ == magnitude_bytes(abs(v@)),
{
    let sign = if v.negative { Sign::Minus } else { Sign::Plus };
    BigInt::from_bytes_be(sign, &v.magnitude).magnitude().to_bytes_be()
}

/// `BigInt`'s `/`: the quotient rounded toward zero.
#[verifier::external_body]
pub(crate) fn bigint_div(a: &BigIntParts, b: &BigIntParts) -> (r: BigIntParts)
    requires
        b@ != 0,
    ensures
        r@ == trunc_div(a@, b@),
{
    let sa = if a.negative { Sign::Minus } else { Sign::Plus };
    let sb = if b.negative { Sign::Minus } else { Sign::Plus };
    let x = BigInt::from_bytes_be(sa, &a.magnitude) / BigInt::from_bytes_be(sb, &b.magnitude);
    let (sign, magnitude) = x.to_bytes_be();
    BigIntParts { negative: sign == Sign::Minus, magnitude }
}

/// `BigInt`'s `*`: the product.
#[verifier::external_body]
pub(crate) fn bigint_mul(a: &BigIntParts, b: &BigIntParts) -> (r: BigIntParts)
    ensures
        r@ == a@ * b@,
{
    let sa = if a.negative { Sign::Minus } else { Sign::Plus };
    let sb = if b.negative { Sign::Minus } else { Sign::Plus };
    let x = BigInt::from_bytes_be(sa, &a.magnitude) * BigInt::from_bytes_be(sb, &b.magnitude);
    let (sign, magnitude) = x.to_bytes_be();
    BigIntParts { negative: sign == Sign::Minus, magnitude }
}

/// `BigInt`'s `-`: the difference.
#[verifier::external_body]
pub(crate) fn bigint_sub(a: &BigIntParts, b: &BigIntParts) -> (r: BigIntParts)
    ensures
        r@ == a@ - b@,
{
    let sa = if a.negative { Sign::Minus } else { Sign::Plus };
    let sb = if b.negative { Sign::Minus } else { Sign::Plus };
    let x = BigInt::from_bytes_be(sa, &a.magnitude) - BigInt::from_bytes_be(sb, &b.magnitude);
    let (sign, magnitude) = x.to_bytes_be();
    BigIntParts { negative: sign == Sign::Minus, magnitude }
}

/// `BigInt`'s `+`: the sum.
#[verifier::external_body]
pub(crate) fn bigint_add(a: &BigIntParts, b: &BigIntParts) -> (r: BigIntParts)
    ensures
        r@ == a@ + b@,
{
    let sa = if a.negative { Sign::Minus } else { Sign::Plus };
    let sb = if b.negative { Sign::Minus } else { Sign::Plus };
    let x = BigInt::from_bytes_be(sa, &a.magnitude) + BigInt::from_bytes_be(sb, &b.magnitude);
    let (sign, magnitude) = x.to_bytes_be();
    BigIntParts { negative: sign == Sign::Minus, magnitude }
}

/// `BigInt`'s `Display`: the decimal text of the integer.
#[verifier::external_body]
pub(crate) fn bigint_text(v: &BigIntParts) -> (r: String)
    ensures
        r@ == crate::text::int_text(v@),
{
    let sign = if v.negative { Sign::Minus } else { Sign::Plus };
    BigInt::from_bytes_be(sign, &v.magnitude).to_string()
}

// ---------------------------------------------------------------------------
// Rationals
// ---------------------------------------------------------------------------

/// A rational number: numerator over a non-zero denominator.
#[derive(Debug, PartialEq, Eq)]
pub struct RationalParts {
    pub(crate) numer: BigIntParts,
    pub(crate) denom: BigIntParts,
}

impl RationalParts {
    #[verifier::type_invariant]
    spec fn denominator_nonzero(self) -> bool {
        self.denom@ != 0
    }

    /// The numerator's value.
    pub closed spec fn numer_value(self) -> int {
        self.numer@
    }

    /// The denominator's value.
    pub closed spec fn denom_value(self) -> int {
        self.denom@
    }

    /// The fraction `numer/denom`, reduced to lowest terms with a positive
    /// denominator as `BigRational::new` makes it.
    pub fn new(numer: &BigIntParts, denom: &BigIntParts) -> (r: RationalParts)
        requires
            denom@ != 0,
        ensures
            (r.numer_value(), r.denom_value()) == reduced(numer@, denom@),
            r.denom_value() > 0,
    {
        rational_new(numer, denom)
    }

    /// The numerator.
    pub fn numer(&self) -> (r: &BigIntParts)
        ensures
            r@ == self.numer_value(),
    {
        &self.numer
    }

    /// The denominator, never zero.
    pub fn denom(&self) -> (r: &BigIntParts)
        ensures
            r@ == self.denom_value(),
            r@ != 0,
    {
        proof {
            use_type_invariant(self);
        }
        &self.denom
    }

    /// A new value with the same parts.
    pub fn duplicate(&self) -> (r: RationalParts)
        ensures
            r.numer_value() == self.numer_value(),
            r.denom_value() == self.denom_value(),
    {
        proof {
            use_type_invariant(self);
        }
        RationalParts { numer: self.numer.duplicate(), denom: self.denom.duplicate() }
    }
}

impl Clone for RationalParts {
    fn clone(&self) -> (r: RationalParts)
        ensures
            r.numer_value() == self.numer_value(),
            r.denom_value() == self.denom_value(),
    {
        self.duplicate()
    }
}

/// Greatest common divisor.
pub open spec fn gcd(a: nat, b: nat) -> nat
    decreases b,
{
    if b == 0 {
        a
    } else {
        gcd(b, a % b)
    }
}

/// The fraction `n/d` in lowest terms with a positive denominator, as
/// `Ratio::new` reduces it.
pub open spec fn reduced(n: int, d: int) -> (int, int) {
    let g = gcd(abs(n), abs(d)) as int;
    let a = n / g;
    let b = d / g;
    if b < 0 {
        (-a, -b)
    } else {
        (a, b)
    }
}

/// A fraction as `Ratio::new` leaves it: in lowest terms, positive denominator.
pub open spec fn rational_canonical(n: int, d: int) -> bool {
    d > 0 && gcd(abs(n), abs(d)) == 1
}

/// `BigRational::new`: the fraction reduced to lowest terms with a positive
/// denominator, read back through `to_bytes_be`. It panics on a zero
/// denominator, which `requires` leaves out.
#[verifier::external_body]
pub(crate) fn rational_new(numer: &BigIntParts, denom: &BigIntParts) -> (r: RationalParts)
    requires
        denom@ != 0,
    ensures
        (r.numer_value(), r.denom_value()) == reduced(numer@, denom@),
        r.denom_value() > 0,
{
    let sn = if numer.negative { Sign::Minus } else { Sign::Plus };
    let sd = if denom.negative { Sign::Minus } else { Sign::Plus };
    let q = BigRational::new(
        BigInt::from_bytes_be(sn, &numer.magnitude),
        BigInt::from_bytes_be(sd, &denom.magnitude),
    );
    let (ns, nm) = q.numer().to_bytes_be();
    let (ds, dm) = q.denom().to_bytes_be();
    RationalParts {
        numer: BigIntParts { negative: ns == Sign::Minus, magnitude: nm },
        denom: BigIntParts { negative: ds == Sign::Minus, magnitude: dm },
    }
}

/// The canonical continued-fraction terms of `p/q` (for `q > 0`): the floor,
/// then the expansion of the remainder's reciprocal.
pub open spec fn cf_terms(p: int, q: int) -> Seq<int>
    decreases (if q > 0 {
        q
    } else {
        0
    }),
{
    if q <= 0 {
        Seq::empty()
    } else if p % q == 0 {
        seq![p / q]
    } else {
        seq![p / q] + cf_terms(q, p % q)
    }
}

/// The integers a list of big integers stands for.
pub open spec fn ints_view(v: Seq<BigIntParts>) -> Seq<int> {
    v.map_values(|x: BigIntParts| x@)
}

/// A length below `256^n` takes at most `n` bytes.
pub proof fn lemma_len_bytes_count_bound(x: nat, n: nat)
    requires
        x < pow256(n),
    ensures
        len_bytes_count(x) <= n,
    decreases n,
{
    if x > 0 {
        assert(n > 0);
        assert(pow256(n) == 256 * pow256((n - 1) as nat));
        lemma_len_bytes_count_bound(x / 256, (n - 1) as nat);
    }
}

/// Floor division by a positive divisor from truncating division: the
/// quotient and remainder that `continued_fraction` derives.
proof fn lemma_floor_from_trunc(p: int, q: int, t: int, rem: int)
    requires
        q > 0,
        t == trunc_div(p, q),
        rem == p - t * q,
    ensures
        rem >= 0 ==> t == p / q && rem == p % q,
        rem < 0 ==> t - 1 == p / q && rem + q == p % q,
{
    let m = abs(p) as int;
    lemma_fundamental_div_mod(m, q);
    let k = m / q;
    let s = m % q;
    assert(0 <= s < q);
    if p >= 0 {
        assert(t == k);
        assert(rem == s) by (nonlinear_arith)
            requires
                rem == p - t * q,
                p == q * k + s,
                t == k,
        ;
        lemma_fundamental_div_mod_converse(p, q, t, rem);
    } else {
        assert(t == -k);
        assert(rem == -s) by (nonlinear_arith)
            requires
                rem == p - t * q,
                -p == q * k + s,
                t == -k,
        ;
        if rem >= 0 {
            lemma_fundamental_div_mod_converse(p, q, t, rem);
        } else {
            assert(p == (t - 1) * q + (rem + q)) by (nonlinear_arith)
                requires
                    rem == p - t * q,
            ;
            lemma_fundamental_div_mod_converse(p, q, t - 1, rem + q);
        }
    }
}

/// The continued-fraction terms `[a0, a1, …]` of `numer/denom`: `a0` is the
/// floor of the value, every later term is at least one and the last at
/// least two, so the expansion is unique per value.
pub fn continued_fraction(numer: &BigIntParts, denom: &BigIntParts) -> (terms: Vec<BigIntParts>)
    requires
        denom@ > 0,
    ensures
        ints_view(terms@) == cf_terms(numer@, denom@),
{
    let mut terms: Vec<BigIntParts> = Vec::new();
    let mut p = numer.duplicate();
    let mut q = denom.duplicate();
    let one = BigIntParts { negative: false, magnitude: vec![1u8] };
    proof {
        assert(one.magnitude@ =~= seq![1u8]);
        assert(seq![1u8].drop_last() =~= Seq::<u8>::empty());
        assert(be_value(Seq::<u8>::empty()) == 0);
        assert(be_value(seq![1u8]) == 1);
        assert(one@ == 1);
    }
    loop
        invariant
            q@ > 0,
            one@ == 1,
            ints_view(terms@) + cf_terms(p@, q@) == cf_terms(numer@, denom@),
        decreases q@,
    {
        let trunc = bigint_div(&p, &q);
        let prod = bigint_mul(&trunc, &q);
        let rem = bigint_sub(&p, &prod);
        let negative_rem = bigint_sign(&rem) < 0;
        let (a, r) = if negative_rem {
            (bigint_sub(&trunc, &one), bigint_add(&rem, &q))
        } else {
            (trunc, rem)
        };
        proof {
            lemma_floor_from_trunc(p@, q@, trunc@, rem@);
            assert(a@ == p@ / q@ && r@ == p@ % q@);
        }
        let ghost before = ints_view(terms@);
        terms.push(a);
        proof {
            assert(ints_view(terms@) =~= before.push(p@ / q@));
        }
        if bigint_sign(&r) == 0 {
            assert(ints_view(terms@) =~= cf_terms(numer@, denom@));
            return terms;
        }
        proof {
            lemma_fundamental_div_mod(p@, q@);
            assert(cf_terms(p@, q@) =~= seq![p@ / q@] + cf_terms(q@, p@ % q@));
            assert(ints_view(terms@) + cf_terms(q@, r@) =~= cf_terms(numer@, denom@));
        }
        p = q;
        q = r;
    }
}

// ---------------------------------------------------------------------------
// Decimal big floats
// ---------------------------------------------------------------------------

/// A decimal big float, by class; a finite non-zero value is its decimal
/// digits (most significant first) times ten to the exponent.
#[derive(Clone, Debug, PartialEq, Eq)]
pub enum BigFloatParts {
    Nan,
    InfPos,
    InfNeg,
    Zero,
    Finite { negative: bool, exponent: i8, mantissa: Vec<u8> },
}

/// The mathematical form of a [`BigFloatParts`].
pub enum BigFloatView {
    Nan,
    InfPos,
    InfNeg,
    Zero,
    Finite { negative: bool, exponent: i8, mantissa: Seq<u8> },
}

impl View for BigFloatParts {
    type V = BigFloatView;

    open spec fn view(&self) -> BigFloatView {
        match self {
            BigFloatParts::Nan => BigFloatView::Nan,
            BigFloatParts::InfPos => BigFloatView::InfPos,
            BigFloatParts::InfNeg => BigFloatView::InfNeg,
            BigFloatParts::Zero => BigFloatView::Zero,
            BigFloatParts::Finite { negative, exponent, mantissa } => BigFloatView::Finite {
                negative: *negative,
                exponent: *exponent,
                mantissa: mantissa@,
            },
        }
    }
}

impl BigFloatParts {
    /// A new value with the same parts.
    pub fn duplicate(&self) -> (r: BigFloatParts)
        ensures
            r@ == self@,
    {
        match self {
            BigFloatParts::Nan => BigFloatParts::Nan,
            BigFloatParts::InfPos => BigFloatParts::InfPos,
            BigFloatParts::InfNeg => BigFloatParts::InfNeg,
            BigFloatParts::Zero => BigFloatParts::Zero,
            BigFloatParts::Finite { negative, exponent, mantissa } => {
                let m = mantissa.clone();
                assert(m@ =~= mantissa@);
                BigFloatParts::Finite { negative: *negative, exponent: *exponent, mantissa: m }
            },
        }
    }
}

/// The digits a big float holds: between one and forty decimal digits, the
/// first non-zero.
pub open spec fn digits_canonical(m: Seq<u8>) -> bool {
    &&& 1 <= m.len() <= 40
    &&& m[0] != 0
    &&& forall|i: int| 0 <= i < m.len() ==> #[trigger] m[i] < 10
}

/// A big float as `num-bigfloat` can hold it.
pub open spec fn bigfloat_canonical(v: BigFloatView) -> bool {
    match v {
        BigFloatView::Finite { mantissa, .. } => digits_canonical(mantissa),
        _ => true,
    }
}

/// `s` without its leading zero bytes.
pub open spec fn strip_leading_zeros(s: Seq<u8>) -> Seq<u8>
    decreases s.len(),
{
    if s.len() > 0 && s[0] == 0 {
        strip_leading_zeros(s.drop_first())
    } else {
        s
    }
}

/// The digits `BigFloat::from_bytes` keeps of `bytes`: the first forty, each
/// taken modulo ten, without leading zeros.
pub open spec fn kept_digits(bytes: Seq<u8>) -> Seq<u8> {
    let d = if bytes.len() > 40 {
        40
    } else {
        bytes.len() as int
    };
    strip_leading_zeros(bytes.take(d).map_values(|b: u8| (b % 10) as u8))
}

/// `BigFloat::from_bytes` with sign `-1` or `1`, read back through
/// `is_negative`, `get_exponent`, `get_mantissa_len` and `get_mantissa_bytes`:
/// the sign and exponent as given, and the kept digits.
#[verifier::external_body]
pub(crate) fn bigfloat_from_bytes(bytes: &[u8], negative: bool, exponent: i8) -> (r: (bool, i8, Vec<u8>))
    ensures
        r.0 == negative,
        r.1 == exponent,
        r.2@ == kept_digits(bytes@),
{
    let v = BigFloat::from_bytes(bytes, if negative { -1 } else { 1 }, exponent);
    let mut digits = vec![0u8; v.get_mantissa_len()];
    v.get_mantissa_bytes(&mut digits);
    (v.is_negative(), v.get_exponent(), digits)
}

/// The text `BigFloat`'s `Display` writes for the value
/// `BigFloat::from_bytes(mantissa, ±1, exponent)`.
pub uninterp spec fn bigfloat_display(negative: bool, exponent: i8, mantissa: Seq<u8>) -> Seq<char>;

/// `BigFloat::from_bytes` then `Display`: the library's decimal literal of
/// the value (its format is left to the crate).
#[verifier::external_body]
pub(crate) fn bigfloat_text(negative: bool, exponent: i8, mantissa: &[u8]) -> (r: String)
    ensures
        r@ == bigfloat_display(negative, exponent, mantissa@),
{
    BigFloat::from_bytes(mantissa, if negative { -1 } else { 1 }, exponent).to_string()
}

proof fn lemma_strip_canonical(m: Seq<u8>)
    requires
        m.len() == 0 || m[0] != 0,
    ensures
        strip_leading_zeros(m) == m,
{
}

/// Canonical digits are kept as they are.
pub proof fn lemma_kept_canonical(m: Seq<u8>)
    requires
        digits_canonical(m),
    ensures
        kept_digits(m) == m,
{
    let t = m.take(m.len() as int).map_values(|b: u8| (b % 10) as u8);
    assert(t =~= m) by {
        assert forall|i: int| 0 <= i < m.len() implies t[i] == m[i] by {
            assert(m[i] < 10);
        }
    }
    lemma_strip_canonical(t);
}

} // verus!
