//! Decimal digit strings and the numeric order of big floats: a big float's
//! index key sorts by the number it stands for.

use crate::bignum::{digits_canonical, BigFloatView};
use crate::bytes::{diverge_at, lemma_lex_asym, lemma_lex_sorts_before, lemma_lex_total, lex_lt};
use crate::ordered::{
    bigfloat_class, bigfloat_lt, lead_exponent, scientific_lt, strip_trailing_zeros,
};
use vstd::arithmetic::power::{lemma_pow_adds, lemma_pow_increases, lemma_pow_positive, pow};
use vstd::prelude::*;

verus! {

/// The number a string of decimal digits spells, most significant first.
pub open spec fn digits_value(m: Seq<u8>) -> int
    decreases m.len(),
{
    if m.len() == 0 {
        0
    } else {
        m[0] * pow(10, (m.len() - 1) as nat) + digits_value(m.drop_first())
    }
}

/// Every byte is a decimal digit.
pub open spec fn all_digits(m: Seq<u8>) -> bool {
    forall|i: int| 0 <= i < m.len() ==> #[trigger] m[i] < 10
}

/// `k` zero digits.
pub open spec fn zeros(k: nat) -> Seq<u8> {
    Seq::new(k, |i: int| 0u8)
}

/// `m1 × 10^e1 < m2 × 10^e2`, for digit strings read as numbers.
pub open spec fn decimal_lt(m1: Seq<u8>, e1: int, m2: Seq<u8>, e2: int) -> bool {
    let lo = if e1 < e2 {
        e1
    } else {
        e2
    };
    digits_value(m1) * pow(10, (e1 - lo) as nat) < digits_value(m2) * pow(10, (e2 - lo) as nat)
}

/// The numeric order of big floats: −∞ below every finite value, +∞ above,
/// finite values by the number they stand for; NaN is unordered.
pub open spec fn bigfloat_value_lt(a: BigFloatView, b: BigFloatView) -> bool {
    &&& !(a is Nan)
    &&& !(b is Nan)
    &&& match (a, b) {
        (
            BigFloatView::Finite { negative: na, exponent: ea, mantissa: ma },
            BigFloatView::Finite { negative: nb, exponent: eb, mantissa: mb },
        ) => if !na && !nb {
            decimal_lt(ma, ea as int, mb, eb as int)
        } else if na && nb {
            decimal_lt(mb, eb as int, ma, ea as int)
        } else {
            na && !nb
        },
        _ => bigfloat_class(a) < bigfloat_class(b),
    }
}

proof fn lemma_pow10_step(n: nat)
    requires
        n >= 1,
    ensures
        pow(10, n) == 10 * pow(10, (n - 1) as nat),
        pow(10, 0) == 1,
{
    reveal(pow);
}

proof fn lemma_pow10_zero()
    ensures
        pow(10, 0) == 1,
{
    reveal(pow);
}

proof fn lemma_digits_concat(a: Seq<u8>, b: Seq<u8>)
    ensures
        digits_value(a + b) == digits_value(a) * pow(10, b.len()) + digits_value(b),
    decreases a.len(),
{
    if a.len() == 0 {
        assert(a + b =~= b);
    } else {
        assert((a + b).drop_first() =~= a.drop_first() + b);
        assert((a + b)[0] == a[0]);
        lemma_digits_concat(a.drop_first(), b);
        lemma_pow_adds(10, (a.len() - 1) as nat, b.len());
        assert(((a + b).len() - 1) as nat == ((a.len() - 1) as nat) + b.len());
        let p = pow(10, (a.len() - 1) as nat);
        let q = pow(10, b.len());
        let x = a[0] as int;
        let r = digits_value(a.drop_first());
        assert(x * (p * q) + (r * q + digits_value(b)) == (x * p + r) * q + digits_value(b))
            by (nonlinear_arith);
    }
}

proof fn lemma_digits_zeros(k: nat)
    ensures
        digits_value(zeros(k)) == 0,
        all_digits(zeros(k)),
    decreases k,
{
    if k > 0 {
        assert(zeros(k).drop_first() =~= zeros((k - 1) as nat));
        lemma_digits_zeros((k - 1) as nat);
        assert(zeros(k)[0] == 0);
        assert(0 * pow(10, (k - 1) as nat) == 0);
    }
}

proof fn lemma_digits_bound(m: Seq<u8>)
    requires
        all_digits(m),
    ensures
        0 <= digits_value(m) < pow(10, m.len()),
    decreases m.len(),
{
    lemma_pow10_zero();
    if m.len() > 0 {
        assert(all_digits(m.drop_first())) by {
            assert forall|i: int| 0 <= i < m.drop_first().len() implies #[trigger] m.drop_first()[i]
                < 10 by {
                assert(m.drop_first()[i] == m[i + 1]);
            }
        }
        lemma_digits_bound(m.drop_first());
        lemma_pow10_step(m.len());
        lemma_pow_positive(10, (m.len() - 1) as nat);
        let p = pow(10, (m.len() - 1) as nat);
        let x = m[0] as int;
        assert(m[0] < 10);
        assert(x * p + digits_value(m.drop_first()) < 10 * p) by (nonlinear_arith)
            requires
                0 <= x < 10,
                0 <= digits_value(m.drop_first()) < p,
        ;
        assert(0 <= x * p) by (nonlinear_arith)
            requires
                0 <= x,
                0 < p,
        ;
    }
}

proof fn lemma_digits_lower(m: Seq<u8>)
    requires
        all_digits(m),
        m.len() >= 1,
        m[0] != 0,
    ensures
        digits_value(m) >= pow(10, (m.len() - 1) as nat),
{
    assert(all_digits(m.drop_first())) by {
        assert forall|i: int| 0 <= i < m.drop_first().len() implies #[trigger] m.drop_first()[i]
            < 10 by {
            assert(m.drop_first()[i] == m[i + 1]);
        }
    }
    lemma_digits_bound(m.drop_first());
    lemma_pow_positive(10, (m.len() - 1) as nat);
    let p = pow(10, (m.len() - 1) as nat);
    let x = m[0] as int;
    assert(x * p >= p) by (nonlinear_arith)
        requires
            x >= 1,
            p > 0,
    ;
}

/// A digit string ends in its last digit's value or more.
proof fn lemma_digits_last(m: Seq<u8>)
    requires
        all_digits(m),
        m.len() >= 1,
    ensures
        digits_value(m) >= m.last(),
{
    let init = m.drop_last();
    assert(m =~= init + seq![m.last()]);
    lemma_digits_concat(init, seq![m.last()]);
    assert(seq![m.last()].drop_first() =~= Seq::<u8>::empty());
    assert(all_digits(init)) by {
        assert forall|i: int| 0 <= i < init.len() implies #[trigger] init[i] < 10 by {
            assert(init[i] == m[i]);
        }
    }
    lemma_digits_bound(init);
    lemma_pow10_zero();
    lemma_pow10_step(1);
    assert(digits_value(seq![m.last()].drop_first()) == 0);
    assert(digits_value(seq![m.last()]) == m.last());
    assert(digits_value(init) * pow(10, 1) >= 0);
}

/// Stripping trailing zeros leaves the leading digit and a non-zero last one
/// (when there is more than one), and the stripped zeros are all that went.
proof fn lemma_strip_shape(m: Seq<u8>)
    requires
        m.len() >= 1,
    ensures
        1 <= strip_trailing_zeros(m).len() <= m.len(),
        m == strip_trailing_zeros(m) + zeros((m.len() - strip_trailing_zeros(m).len()) as nat),
        strip_trailing_zeros(m)[0] == m[0],
        strip_trailing_zeros(m).len() > 1 ==> strip_trailing_zeros(m).last() != 0,
    decreases m.len(),
{
    if m.len() > 1 && m.last() == 0 {
        let init = m.drop_last();
        lemma_strip_shape(init);
        let s = strip_trailing_zeros(init);
        assert(strip_trailing_zeros(m) == s);
        let t = (init.len() - s.len()) as nat;
        assert(m =~= init.push(0u8));
        assert(s + zeros(t + 1) =~= (s + zeros(t)).push(0u8));
        assert((m.len() - s.len()) as nat == t + 1);
        assert(init[0] == m[0]);
    } else {
        assert(m + zeros(0) =~= m);
    }
}

proof fn lemma_all_digits_parts(m: Seq<u8>, i: int, j: int)
    requires
        all_digits(m),
        0 <= i <= j <= m.len(),
    ensures
        all_digits(m.subrange(i, j)),
{
    assert forall|k: int| 0 <= k < m.subrange(i, j).len() implies #[trigger] m.subrange(i, j)[k]
        < 10 by {
        assert(m.subrange(i, j)[k] == m[i + k]);
    }
}

/// Equal-length digit strings that part at a position compare there.
proof fn lemma_diverge_less(p: Seq<u8>, q: Seq<u8>, i: int)
    requires
        p.len() == q.len(),
        all_digits(p),
        all_digits(q),
        diverge_at(p, q, i),
    ensures
        digits_value(p) < digits_value(q),
{
    let k = p.len();
    let c = p.take(i);
    assert(c == q.take(i));
    let pt = p.skip(i);
    let qt = q.skip(i);
    assert(p =~= c + pt);
    assert(q =~= c + qt);
    lemma_digits_concat(c, pt);
    lemma_digits_concat(c, qt);
    assert(pt.len() == qt.len());
    lemma_all_digits_parts(p, i + 1, k as int);
    lemma_all_digits_parts(q, i + 1, k as int);
    assert(pt.drop_first() =~= p.subrange(i + 1, k as int));
    assert(qt.drop_first() =~= q.subrange(i + 1, k as int));
    lemma_digits_bound(pt.drop_first());
    lemma_digits_bound(qt.drop_first());
    let w = pow(10, (pt.len() - 1) as nat);
    assert(pt[0] == p[i] && qt[0] == q[i]);
    assert(digits_value(pt) == p[i] * w + digits_value(pt.drop_first()));
    assert(digits_value(qt) == q[i] * w + digits_value(qt.drop_first()));
    assert(digits_value(pt) < digits_value(qt)) by (nonlinear_arith)
        requires
            p[i] < q[i],
            digits_value(pt) == p[i] * w + digits_value(pt.drop_first()),
            digits_value(qt) == q[i] * w + digits_value(qt.drop_first()),
            0 <= digits_value(pt.drop_first()) < w,
            0 <= digits_value(qt.drop_first()),
    ;
    lemma_pow_positive(10, pt.len());
    let z = pow(10, pt.len());
    let dc = digits_value(c);
    assert(dc * z + digits_value(pt) < dc * z + digits_value(qt));
}

/// Two stripped digit strings in bytewise order, padded with zeros to a
/// common length, are in numeric order.
proof fn lemma_padded_less(s1: Seq<u8>, s2: Seq<u8>, k: nat)
    requires
        all_digits(s1),
        all_digits(s2),
        s1.len() <= k,
        s2.len() <= k,
        s2.len() >= 1,
        s2.last() != 0,
        lex_lt(s1, s2),
    ensures
        digits_value(s1) * pow(10, (k - s1.len()) as nat) < digits_value(s2) * pow(10, (k - s2.len()) as nat),
{
    let z1 = zeros((k - s1.len()) as nat);
    let z2 = zeros((k - s2.len()) as nat);
    let p = s1 + z1;
    let q = s2 + z2;
    lemma_digits_concat(s1, z1);
    lemma_digits_concat(s2, z2);
    lemma_digits_zeros((k - s1.len()) as nat);
    lemma_digits_zeros((k - s2.len()) as nat);
    assert(all_digits(p)) by {
        assert forall|i: int| 0 <= i < p.len() implies #[trigger] p[i] < 10 by {
            if i < s1.len() {
                assert(p[i] == s1[i]);
            } else {
                assert(p[i] == z1[i - s1.len()]);
            }
        }
    }
    assert(all_digits(q)) by {
        assert forall|i: int| 0 <= i < q.len() implies #[trigger] q[i] < 10 by {
            if i < s2.len() {
                assert(q[i] == s2[i]);
            } else {
                assert(q[i] == z2[i - s2.len()]);
            }
        }
    }
    if !s1.is_prefix_of(s2) {
        lemma_lex_sorts_before(s1, s2);
        let i = choose|i: int| diverge_at(s1, s2, i);
        assert(p.take(i) =~= s1.take(i));
        assert(q.take(i) =~= s2.take(i));
        assert(diverge_at(p, q, i));
        lemma_diverge_less(p, q, i);
    } else {
        // `s1` is a proper prefix of `s2`, whose extra digits end non-zero.
        lemma_lex_asym(s1, s2);
        assert(s1.len() < s2.len()) by {
            if s1.len() == s2.len() {
                assert(s1 =~= s2);
            }
        }
        let r = s2.skip(s1.len() as int);
        assert(s2 =~= s1 + r);
        lemma_digits_concat(s1, r);
        lemma_all_digits_parts(s2, s1.len() as int, s2.len() as int);
        assert(r =~= s2.subrange(s1.len() as int, s2.len() as int));
        assert(r.last() == s2.last());
        lemma_digits_last(r);
        let zr = zeros(r.len());
        lemma_digits_zeros(r.len());
        let t = (k - s2.len()) as nat;
        assert((k - s1.len()) as nat == r.len() + t);
        lemma_pow_adds(10, r.len(), t);
        lemma_pow_positive(10, t);
        let a = digits_value(s1);
        let pr = pow(10, r.len());
        let pt = pow(10, t);
        assert(a * (pr * pt) < (a * pr + digits_value(r)) * pt) by (nonlinear_arith)
            requires
                digits_value(r) >= 1,
                pt > 0,
        ;
    }
}

/// A canonical digit string times `10^(e - lo)`: bounded by the powers of
/// ten around its leading digit, and equal to its stripped digits scaled.
proof fn lemma_scaled(m: Seq<u8>, e: int, lo: int)
    requires
        digits_canonical(m),
        e >= lo,
    ensures
        pow(10, (m.len() - 1 + e - lo) as nat) <= digits_value(m) * pow(10, (e - lo) as nat),
        digits_value(m) * pow(10, (e - lo) as nat) < pow(10, (m.len() + e - lo) as nat),
        digits_value(m) * pow(10, (e - lo) as nat) == digits_value(strip_trailing_zeros(m)) * pow(
            10,
            (m.len() + e - lo - strip_trailing_zeros(m).len()) as nat,
        ),
{
    let n = m.len();
    let x = (e - lo) as nat;
    assert(all_digits(m));
    lemma_digits_bound(m);
    lemma_digits_lower(m);
    lemma_pow_adds(10, (n - 1) as nat, x);
    lemma_pow_adds(10, n, x);
    lemma_pow_positive(10, x);
    let d = digits_value(m);
    let px = pow(10, x);
    assert(pow(10, (n - 1) as nat) * px <= d * px) by (nonlinear_arith)
        requires
            pow(10, (n - 1) as nat) <= d,
            px > 0,
    ;
    assert(d * px < pow(10, n) * px) by (nonlinear_arith)
        requires
            d < pow(10, n),
            px > 0,
    ;
    assert(((n - 1) as nat + x) as nat == (n - 1 + e - lo) as nat);
    lemma_strip_shape(m);
    let s = strip_trailing_zeros(m);
    let t = (n - s.len()) as nat;
    lemma_digits_concat(s, zeros(t));
    lemma_digits_zeros(t);
    lemma_pow_adds(10, t, x);
    assert((t + x) as nat == (n + e - lo - s.len()) as nat);
    assert(digits_value(s) * pow(10, t) * px == digits_value(s) * (pow(10, t) * px))
        by (nonlinear_arith);
}

/// For two positive canonical big floats, the smaller number has the smaller
/// decimal scientific form.
proof fn lemma_positive_order(e1: i8, m1: Seq<u8>, e2: i8, m2: Seq<u8>)
    requires
        digits_canonical(m1),
        digits_canonical(m2),
        decimal_lt(m1, e1 as int, m2, e2 as int),
    ensures
        scientific_lt(e1, m1, e2, m2),
{
    let lo = if e1 < e2 {
        e1 as int
    } else {
        e2 as int
    };
    let n1 = m1.len() as int;
    let n2 = m2.len() as int;
    let d1 = n1 - 1 + e1;
    let d2 = n2 - 1 + e2;
    assert(lead_exponent(m1.len(), e1) == d1);
    assert(lead_exponent(m2.len(), e2) == d2);
    lemma_scaled(m1, e1 as int, lo);
    lemma_scaled(m2, e2 as int, lo);
    let x = digits_value(m1) * pow(10, (e1 - lo) as nat);
    let y = digits_value(m2) * pow(10, (e2 - lo) as nat);
    assert(x < y);
    if d2 < d1 {
        lemma_pow_increases(10, (n2 + e2 - lo) as nat, (n1 - 1 + e1 - lo) as nat);
        assert(false);
    } else if d1 == d2 {
        let s1 = strip_trailing_zeros(m1);
        let s2 = strip_trailing_zeros(m2);
        lemma_strip_shape(m1);
        lemma_strip_shape(m2);
        lemma_all_digits_parts(m1, 0, s1.len() as int);
        lemma_all_digits_parts(m2, 0, s2.len() as int);
        assert(s1 =~= m1.subrange(0, s1.len() as int));
        assert(s2 =~= m2.subrange(0, s2.len() as int));
        assert(s1.last() != 0 && s2.last() != 0) by {
            if s1.len() == 1 {
                assert(s1.last() == s1[0]);
            }
            if s2.len() == 1 {
                assert(s2.last() == s2[0]);
            }
        }
        let c = n1 + e1 - lo;
        assert(c == n2 + e2 - lo);
        let k: nat = if s1.len() > s2.len() {
            s1.len()
        } else {
            s2.len()
        };
        let w = (c - k) as nat;
        assert(c >= n1 && c >= n2);
        lemma_pow_adds(10, (k - s1.len()) as nat, w);
        lemma_pow_adds(10, (k - s2.len()) as nat, w);
        assert((c - s1.len()) as nat == (k - s1.len()) as nat + w);
        assert((c - s2.len()) as nat == (k - s2.len()) as nat + w);
        lemma_pow_positive(10, w);
        let pw = pow(10, w);
        let a1 = digits_value(s1) * pow(10, (k - s1.len()) as nat);
        let a2 = digits_value(s2) * pow(10, (k - s2.len()) as nat);
        assert(x == a1 * pw) by (nonlinear_arith)
            requires
                x == digits_value(s1) * (pow(10, (k - s1.len()) as nat) * pw),
                a1 == digits_value(s1) * pow(10, (k - s1.len()) as nat),
        ;
        assert(y == a2 * pw) by (nonlinear_arith)
            requires
                y == digits_value(s2) * (pow(10, (k - s2.len()) as nat) * pw),
                a2 == digits_value(s2) * pow(10, (k - s2.len()) as nat),
        ;
        if s1 == s2 {
            assert(false);
        } else {
            lemma_lex_total(s1, s2);
            if lex_lt(s2, s1) {
                lemma_padded_less(s2, s1, k);
                assert(a2 * pw < a1 * pw) by (nonlinear_arith)
                    requires
                        a2 < a1,
                        pw > 0,
                ;
                assert(false);
            }
        }
    }
}

/// The big-float index keys sort by number: a canonical big float that is
/// numerically below another (−∞ lowest, +∞ highest, NaN left out) comes
/// first in the index order, and so encodes to a bytewise-smaller key.
pub proof fn lemma_bigfloat_value_order(a: BigFloatView, b: BigFloatView)
    requires
        crate::bignum::bigfloat_canonical(a),
        crate::bignum::bigfloat_canonical(b),
        bigfloat_value_lt(a, b),
    ensures
        bigfloat_lt(a, b),
        crate::bytes::sorts_before(
            crate::ordered::bigfloat_ascending_bytes(a),
            crate::ordered::bigfloat_ascending_bytes(b),
        ),
{
    match (a, b) {
        (
            BigFloatView::Finite { negative: na, exponent: ea, mantissa: ma },
            BigFloatView::Finite { negative: nb, exponent: eb, mantissa: mb },
        ) => {
            if !na && !nb {
                lemma_positive_order(ea, ma, eb, mb);
            } else if na && nb {
                lemma_positive_order(eb, mb, ea, ma);
            }
        },
        _ => {},
    }
    crate::ordered::lemma_bigfloat_order(a, b);
}

} // verus!
