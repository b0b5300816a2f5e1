//! The numeric order of rationals and their continued-fraction index keys:
//! a smaller rational encodes to a bytewise-smaller key.

use crate::bignum::{abs, cf_terms, len_bytes_count, magnitude_bytes, rational_canonical, reduced};
use crate::bytes::{
    complement, diverge_at, lemma_sorts_before_complement, lemma_sorts_before_extend,
    lemma_sorts_before_prepend, sorts_before,
};
use crate::ordered::{
    cf_tail_bytes, directed, lemma_bigint_prefix_free, lemma_complement_prefix, lemma_prefix_split,
    lemma_signed_int_order, lemma_tagged, lemma_uint_field_order, lemma_uint_field_prefix_free,
    rational_ascending_bytes, signed_int_bytes, uint_field, key_fits,
};
use crate::scalar::ScalarView;
use crate::scalar::RATIONAL_TAG;
use vstd::arithmetic::div_mod::lemma_fundamental_div_mod;
use vstd::prelude::*;

verus! {

/// The key of the continued-fraction terms `s` standing at position `i` on:
/// each a continue marker and its magnitude run (bit-inverted at odd
/// positions), then the stop marker for the position reached.
pub open spec fn terms_key(s: Seq<int>, i: nat) -> Seq<u8>
    decreases s.len(),
{
    if s.len() == 0 {
        seq![if i % 2 == 0 {
            2u8
        } else {
            0u8
        }]
    } else {
        seq![1u8] + directed(uint_field(magnitude_bytes(abs(s[0]))), i % 2 == 1) + terms_key(
            s.drop_first(),
            i + 1,
        )
    }
}

/// Every term's magnitude fits the 64-bit length of its key.
pub open spec fn terms_fit(s: Seq<int>) -> bool {
    forall|j: int| 0 <= j < s.len() ==> len_bytes_count(abs(#[trigger] s[j])) < 0x1_0000_0000_0000_0000
}

proof fn lemma_tail_is_terms_key(t: Seq<int>, i: nat)
    requires
        i <= t.len(),
    ensures
        cf_tail_bytes(t, i) == terms_key(t.skip(i as int), i),
    decreases t.len() - i,
{
    if i < t.len() {
        lemma_tail_is_terms_key(t, i + 1);
        assert(t.skip(i as int).drop_first() =~= t.skip(i + 1 as int));
        assert(t.skip(i as int)[0] == t[i as int]);
    } else {
        assert(t.skip(i as int) =~= Seq::<int>::empty());
        assert(t.len() % 2 == i % 2);
    }
}

/// One Euclid step: `p = a q + r` with `0 <= r < q`.
proof fn lemma_step(p: int, q: int)
    requires
        q > 0,
    ensures
        p == (p / q) * q + p % q,
        0 <= p % q < q,
{
    lemma_fundamental_div_mod(p, q);
    assert(q * (p / q) == (p / q) * q) by (nonlinear_arith);
}

/// The expansion of `p/q` is its floor, then (when `q` does not divide `p`)
/// the expansion of `q/r`.
proof fn lemma_cf_unfold(p: int, q: int)
    requires
        q > 0,
    ensures
        cf_terms(p, q).len() >= 1,
        cf_terms(p, q)[0] == p / q,
        p % q == 0 ==> cf_terms(p, q).drop_first() == Seq::<int>::empty(),
        p % q != 0 ==> cf_terms(p, q).drop_first() == cf_terms(q, p % q),
{
    if p % q == 0 {
        assert(cf_terms(p, q) =~= seq![p / q]);
        assert(seq![p / q].drop_first() =~= Seq::<int>::empty());
    } else {
        assert(cf_terms(p, q) =~= seq![p / q] + cf_terms(q, p % q));
        assert((seq![p / q] + cf_terms(q, p % q)).drop_first() =~= cf_terms(q, p % q));
    }
}

/// Keys of continued fractions of values above one order by value, directly
/// at even positions and in reverse at odd ones.
proof fn lemma_tail_order(p1: int, q1: int, p2: int, q2: int, i: nat)
    requires
        p1 > q1 > 0,
        p2 > q2 > 0,
        p1 * q2 < p2 * q1,
        terms_fit(cf_terms(p1, q1)),
        terms_fit(cf_terms(p2, q2)),
    ensures
        i % 2 == 0 ==> sorts_before(terms_key(cf_terms(p1, q1), i), terms_key(cf_terms(p2, q2), i)),
        i % 2 == 1 ==> sorts_before(terms_key(cf_terms(p2, q2), i), terms_key(cf_terms(p1, q1), i)),
    decreases q1 + q2,
{
    let s1 = cf_terms(p1, q1);
    let s2 = cf_terms(p2, q2);
    lemma_cf_unfold(p1, q1);
    lemma_cf_unfold(p2, q2);
    lemma_step(p1, q1);
    lemma_step(p2, q2);
    let a1 = p1 / q1;
    let a2 = p2 / q2;
    let r1 = p1 % q1;
    let r2 = p2 % q2;
    assert(a1 >= 1) by (nonlinear_arith)
        requires
            p1 == a1 * q1 + r1,
            0 <= r1 < q1,
            p1 > q1,
    ;
    assert(a2 >= 1) by (nonlinear_arith)
        requires
            p2 == a2 * q2 + r2,
            0 <= r2 < q2,
            p2 > q2,
    ;
    assert(a1 <= a2) by (nonlinear_arith)
        requires
            p1 == a1 * q1 + r1,
            0 <= r1 < q1,
            p2 == a2 * q2 + r2,
            0 <= r2 < q2,
            p1 * q2 < p2 * q1,
            q1 > 0,
            q2 > 0,
    ;
    assert(s1[0] == a1 && s2[0] == a2);
    assert(len_bytes_count(abs(s1[0])) < 0x1_0000_0000_0000_0000);
    assert(len_bytes_count(abs(s2[0])) < 0x1_0000_0000_0000_0000);
    let m1 = uint_field(magnitude_bytes(a1 as nat));
    let m2 = uint_field(magnitude_bytes(a2 as nat));
    let h1 = seq![1u8] + directed(m1, i % 2 == 1);
    let h2 = seq![1u8] + directed(m2, i % 2 == 1);
    let k1 = terms_key(s1, i);
    let k2 = terms_key(s2, i);
    assert(k1 == h1 + terms_key(s1.drop_first(), i + 1));
    assert(k2 == h2 + terms_key(s2.drop_first(), i + 1));
    if a1 < a2 {
        lemma_uint_field_order(a1 as nat, a2 as nat);
        if i % 2 == 0 {
            lemma_sorts_before_prepend(seq![1u8], m1, m2);
            lemma_sorts_before_extend(h1, h2, terms_key(s1.drop_first(), i + 1), terms_key(s2.drop_first(), i + 1));
        } else {
            lemma_sorts_before_complement(m1, m2);
            lemma_sorts_before_prepend(seq![1u8], complement(m2), complement(m1));
            lemma_sorts_before_extend(h2, h1, terms_key(s2.drop_first(), i + 1), terms_key(s1.drop_first(), i + 1));
        }
    } else {
        assert(h1 == h2);
        assert(r1 * q2 < r2 * q1) by (nonlinear_arith)
            requires
                p1 == a1 * q1 + r1,
                p2 == a1 * q2 + r2,
                p1 * q2 < p2 * q1,
        ;
        assert(r2 > 0) by (nonlinear_arith)
            requires
                r1 * q2 < r2 * q1,
                r1 >= 0,
                q2 > 0,
                q1 > 0,
        ;
        let t1 = terms_key(s1.drop_first(), i + 1);
        let t2 = terms_key(s2.drop_first(), i + 1);
        if r1 == 0 {
            // `p1/q1` is the whole number `a1`; the other goes on past it.
            lemma_cf_unfold(q2, r2);
            assert(t1 == seq![if (i + 1) % 2 == 0 {
                2u8
            } else {
                0u8
            }]);
            assert(t2[0] == 1u8);
            if i % 2 == 0 {
                assert(t1.take(0) =~= t2.take(0));
                assert(diverge_at(t1, t2, 0));
                lemma_sorts_before_prepend(h1, t1, t2);
            } else {
                assert(t2.take(0) =~= t1.take(0));
                assert(diverge_at(t2, t1, 0));
                lemma_sorts_before_prepend(h1, t2, t1);
            }
        } else {
            assert(forall|j: int| 0 <= j < s1.drop_first().len() ==> s1.drop_first()[j] == s1[j + 1]);
            assert(forall|j: int| 0 <= j < s2.drop_first().len() ==> s2.drop_first()[j] == s2[j + 1]);
            assert(terms_fit(cf_terms(q1, r1))) by {
                assert forall|j: int| 0 <= j < cf_terms(q1, r1).len() implies len_bytes_count(
                    abs(#[trigger] cf_terms(q1, r1)[j]),
                ) < 0x1_0000_0000_0000_0000 by {
                    assert(cf_terms(q1, r1)[j] == s1[j + 1]);
                }
            }
            assert(terms_fit(cf_terms(q2, r2))) by {
                assert forall|j: int| 0 <= j < cf_terms(q2, r2).len() implies len_bytes_count(
                    abs(#[trigger] cf_terms(q2, r2)[j]),
                ) < 0x1_0000_0000_0000_0000 by {
                    assert(cf_terms(q2, r2)[j] == s2[j + 1]);
                }
            }
            assert(q2 * r1 < q1 * r2) by (nonlinear_arith)
                requires
                    r1 * q2 < r2 * q1,
            ;
            lemma_tail_order(q2, r2, q1, r1, i + 1);
            if i % 2 == 0 {
                lemma_sorts_before_prepend(h1, t1, t2);
            } else {
                lemma_sorts_before_prepend(h1, t2, t1);
            }
        }
    }
}

/// A rational's expansion fits its key: every term's magnitude has fewer
/// than `2^64` bytes.
pub open spec fn rational_fits(n: int, d: int) -> bool {
    terms_fit(cf_terms(reduced(n, d).0, reduced(n, d).1))
}

/// The rational index keys sort by value: of two rationals in lowest terms
/// with positive denominators, the smaller encodes to a bytewise-smaller key,
/// decided at a position inside both.
pub proof fn lemma_rational_order(n1: int, d1: int, n2: int, d2: int)
    requires
        rational_canonical(n1, d1),
        rational_canonical(n2, d2),
        rational_fits(n1, d1),
        rational_fits(n2, d2),
        n1 * d2 < n2 * d1,
    ensures
        sorts_before(rational_ascending_bytes(n1, d1), rational_ascending_bytes(n2, d2)),
{
    assert(reduced(n1, d1) == (n1, d1));
    assert(reduced(n2, d2) == (n2, d2));
    let t1 = cf_terms(n1, d1);
    let t2 = cf_terms(n2, d2);
    lemma_cf_unfold(n1, d1);
    lemma_cf_unfold(n2, d2);
    lemma_step(n1, d1);
    lemma_step(n2, d2);
    let a1 = n1 / d1;
    let a2 = n2 / d2;
    let r1 = n1 % d1;
    let r2 = n2 % d2;
    lemma_tail_is_terms_key(t1, 1);
    lemma_tail_is_terms_key(t2, 1);
    assert(t1.skip(1) =~= t1.drop_first());
    assert(t2.skip(1) =~= t2.drop_first());
    let g1 = terms_key(t1.drop_first(), 1);
    let g2 = terms_key(t2.drop_first(), 1);
    let k1 = rational_ascending_bytes(n1, d1);
    let k2 = rational_ascending_bytes(n2, d2);
    assert(k1 == seq![RATIONAL_TAG] + signed_int_bytes(a1) + g1);
    assert(k2 == seq![RATIONAL_TAG] + signed_int_bytes(a2) + g2);
    assert(a1 <= a2) by (nonlinear_arith)
        requires
            n1 == a1 * d1 + r1,
            0 <= r1 < d1,
            n2 == a2 * d2 + r2,
            0 <= r2 < d2,
            n1 * d2 < n2 * d1,
            d1 > 0,
            d2 > 0,
    ;
    if a1 < a2 {
        assert(len_bytes_count(abs(t1[0])) < 0x1_0000_0000_0000_0000);
        assert(len_bytes_count(abs(t2[0])) < 0x1_0000_0000_0000_0000);
        lemma_signed_int_order(a1, a2);
        lemma_sorts_before_extend(signed_int_bytes(a1), signed_int_bytes(a2), g1, g2);
        lemma_tagged(RATIONAL_TAG, signed_int_bytes(a1) + g1, signed_int_bytes(a2) + g2);
        assert(k1 =~= seq![RATIONAL_TAG] + (signed_int_bytes(a1) + g1));
        assert(k2 =~= seq![RATIONAL_TAG] + (signed_int_bytes(a2) + g2));
    } else {
        assert(r1 * d2 < r2 * d1) by (nonlinear_arith)
            requires
                n1 == a1 * d1 + r1,
                n2 == a1 * d2 + r2,
                n1 * d2 < n2 * d1,
        ;
        assert(r2 > 0) by (nonlinear_arith)
            requires
                r1 * d2 < r2 * d1,
                r1 >= 0,
                d2 > 0,
                d1 > 0,
        ;
        if r1 == 0 {
            lemma_cf_unfold(d2, r2);
            assert(g1 == seq![0u8]);
            assert(g2[0] == 1u8);
            assert(g1.take(0) =~= g2.take(0));
            assert(diverge_at(g1, g2, 0));
        } else {
            assert(terms_fit(cf_terms(d1, r1))) by {
                assert forall|j: int| 0 <= j < cf_terms(d1, r1).len() implies len_bytes_count(
                    abs(#[trigger] cf_terms(d1, r1)[j]),
                ) < 0x1_0000_0000_0000_0000 by {
                    assert(cf_terms(d1, r1)[j] == t1[j + 1]);
                }
            }
            assert(terms_fit(cf_terms(d2, r2))) by {
                assert forall|j: int| 0 <= j < cf_terms(d2, r2).len() implies len_bytes_count(
                    abs(#[trigger] cf_terms(d2, r2)[j]),
                ) < 0x1_0000_0000_0000_0000 by {
                    assert(cf_terms(d2, r2)[j] == t2[j + 1]);
                }
            }
            assert(d2 * r1 < d1 * r2) by (nonlinear_arith)
                requires
                    r1 * d2 < r2 * d1,
            ;
            lemma_tail_order(d2, r2, d1, r1, 1);
        }
        let p = seq![RATIONAL_TAG] + signed_int_bytes(a1);
        lemma_sorts_before_prepend(p, g1, g2);
        assert(k1 =~= p + g1);
        assert(k2 =~= p + g2);
    }
}

/// Of two strings one of which begins the other, the shorter head begins
/// the longer.
proof fn lemma_prefix_of_heads(h1: Seq<u8>, r1: Seq<u8>, h2: Seq<u8>, r2: Seq<u8>)
    requires
        (h1 + r1).is_prefix_of(h2 + r2),
        h1.len() <= h2.len(),
    ensures
        h1.is_prefix_of(h2),
{
    assert forall|j: int| 0 <= j < h1.len() implies h1[j] == h2.subrange(0, h1.len() as int)[j] by {
        assert((h1 + r1)[j] == (h2 + r2).subrange(0, (h1 + r1).len() as int)[j]);
    }
    assert(h1 =~= h2.subrange(0, h1.len() as int));
}

/// Every term after the first of an expansion is at least one.
proof fn lemma_later_terms_positive(p: int, q: int)
    requires
        p > q > 0,
    ensures
        forall|j: int| 0 <= j < cf_terms(p, q).len() ==> #[trigger] cf_terms(p, q)[j] >= 1,
    decreases q,
{
    lemma_cf_unfold(p, q);
    lemma_step(p, q);
    assert(p / q >= 1) by (nonlinear_arith)
        requires
            p == (p / q) * q + p % q,
            0 <= p % q < q,
            p > q,
    ;
    let s = cf_terms(p, q);
    if p % q != 0 {
        lemma_later_terms_positive(q, p % q);
        assert forall|j: int| 0 <= j < s.len() implies #[trigger] s[j] >= 1 by {
            if j > 0 {
                assert(s[j] == s.drop_first()[j - 1]);
            }
        }
    } else {
        assert(s.len() == 1);
    }
}

/// Keys of positive terms are prefix-free: one begins another only when the
/// terms are the same.
proof fn lemma_terms_key_prefix_free(s1: Seq<int>, s2: Seq<int>, i: nat)
    requires
        forall|j: int| 0 <= j < s1.len() ==> #[trigger] s1[j] >= 1,
        forall|j: int| 0 <= j < s2.len() ==> #[trigger] s2[j] >= 1,
        terms_fit(s1),
        terms_fit(s2),
        terms_key(s1, i).is_prefix_of(terms_key(s2, i)),
    ensures
        s1 == s2,
    decreases s1.len(),
{
    let k1 = terms_key(s1, i);
    let k2 = terms_key(s2, i);
    assert(k1[0] == k2.subrange(0, k1.len() as int)[0]);
    if s1.len() == 0 {
        if s2.len() > 0 {
            assert(k2[0] == 1u8);
        }
        assert(s1 =~= s2);
    } else {
        assert(s2.len() > 0);
        let u1 = directed(uint_field(magnitude_bytes(abs(s1[0]))), i % 2 == 1);
        let u2 = directed(uint_field(magnitude_bytes(abs(s2[0]))), i % 2 == 1);
        let h1 = seq![1u8] + u1;
        let h2 = seq![1u8] + u2;
        let t1 = terms_key(s1.drop_first(), i + 1);
        let t2 = terms_key(s2.drop_first(), i + 1);
        assert(k1 == h1 + t1);
        assert(k2 == h2 + t2);
        assert(len_bytes_count(abs(s1[0])) < 0x1_0000_0000_0000_0000);
        assert(len_bytes_count(abs(s2[0])) < 0x1_0000_0000_0000_0000);
        if h1.len() <= h2.len() {
            lemma_prefix_of_heads(h1, t1, h2, t2);
            lemma_prefix_split(seq![1u8], u1, seq![1u8], u2);
            if i % 2 == 1 {
                lemma_complement_prefix(
                    uint_field(magnitude_bytes(abs(s1[0]))),
                    uint_field(magnitude_bytes(abs(s2[0]))),
                );
            }
            lemma_uint_field_prefix_free(abs(s1[0]), abs(s2[0]));
        } else {
            // The longer head begins with the shorter one, which is the
            // prefix of a prefix of it.
            assert(h2.is_prefix_of(h1)) by {
                assert forall|j: int| 0 <= j < h2.len() implies h2[j] == h1.subrange(
                    0,
                    h2.len() as int,
                )[j] by {
                    assert(k1[j] == k2.subrange(0, k1.len() as int)[j]);
                    assert(k1[j] == h1[j]);
                    assert(k2[j] == h2[j]);
                }
                assert(h2 =~= h1.subrange(0, h2.len() as int));
            }
            lemma_prefix_split(seq![1u8], u2, seq![1u8], u1);
            if i % 2 == 1 {
                lemma_complement_prefix(
                    uint_field(magnitude_bytes(abs(s2[0]))),
                    uint_field(magnitude_bytes(abs(s1[0]))),
                );
            }
            lemma_uint_field_prefix_free(abs(s2[0]), abs(s1[0]));
        }
        assert(s1[0] == s2[0]);
        assert(h1 == h2);
        lemma_prefix_split(h1, t1, h2, t2);
        assert(terms_fit(s1.drop_first())) by {
            assert forall|j: int| 0 <= j < s1.drop_first().len() implies len_bytes_count(
                abs(#[trigger] s1.drop_first()[j]),
            ) < 0x1_0000_0000_0000_0000 by {
                assert(s1.drop_first()[j] == s1[j + 1]);
            }
        }
        assert(terms_fit(s2.drop_first())) by {
            assert forall|j: int| 0 <= j < s2.drop_first().len() implies len_bytes_count(
                abs(#[trigger] s2.drop_first()[j]),
            ) < 0x1_0000_0000_0000_0000 by {
                assert(s2.drop_first()[j] == s2[j + 1]);
            }
        }
        assert(forall|j: int| 0 <= j < s1.drop_first().len() ==> s1.drop_first()[j] == s1[j + 1]);
        assert(forall|j: int| 0 <= j < s2.drop_first().len() ==> s2.drop_first()[j] == s2[j + 1]);
        lemma_terms_key_prefix_free(s1.drop_first(), s2.drop_first(), i + 1);
        assert(s1 =~= seq![s1[0]] + s1.drop_first());
        assert(s2 =~= seq![s2[0]] + s2.drop_first());
    }
}

/// Rational keys are prefix-free: one begins another only when they are the
/// same key.
pub proof fn lemma_rational_prefix_free(n1: int, d1: int, n2: int, d2: int)
    requires
        rational_canonical(n1, d1),
        rational_canonical(n2, d2),
        rational_fits(n1, d1),
        rational_fits(n2, d2),
        rational_ascending_bytes(n1, d1).is_prefix_of(rational_ascending_bytes(n2, d2)),
    ensures
        rational_ascending_bytes(n1, d1) == rational_ascending_bytes(n2, d2),
{
    assert(reduced(n1, d1) == (n1, d1));
    assert(reduced(n2, d2) == (n2, d2));
    let t1 = cf_terms(n1, d1);
    let t2 = cf_terms(n2, d2);
    lemma_cf_unfold(n1, d1);
    lemma_cf_unfold(n2, d2);
    lemma_step(n1, d1);
    lemma_step(n2, d2);
    lemma_tail_is_terms_key(t1, 1);
    lemma_tail_is_terms_key(t2, 1);
    assert(t1.skip(1) =~= t1.drop_first());
    assert(t2.skip(1) =~= t2.drop_first());
    let g1 = terms_key(t1.drop_first(), 1);
    let g2 = terms_key(t2.drop_first(), 1);
    let a1 = t1[0];
    let a2 = t2[0];
    let b1 = signed_int_bytes(a1);
    let b2 = signed_int_bytes(a2);
    let k1 = rational_ascending_bytes(n1, d1);
    let k2 = rational_ascending_bytes(n2, d2);
    assert(k1 =~= seq![RATIONAL_TAG] + (b1 + g1));
    assert(k2 =~= seq![RATIONAL_TAG] + (b2 + g2));
    lemma_prefix_split(seq![RATIONAL_TAG], b1 + g1, seq![RATIONAL_TAG], b2 + g2);
    assert(key_fits(ScalarView::BigInt(a1)) && key_fits(ScalarView::BigInt(a2)));
    if b1.len() <= b2.len() {
        lemma_prefix_of_heads(b1, g1, b2, g2);
        lemma_bigint_prefix_free(a1, a2);
    } else {
        assert(b2.is_prefix_of(b1)) by {
            assert forall|j: int| 0 <= j < b2.len() implies b2[j] == b1.subrange(0, b2.len() as int)[j] by {
                assert((b1 + g1)[j] == (b2 + g2).subrange(0, (b1 + g1).len() as int)[j]);
            }
            assert(b2 =~= b1.subrange(0, b2.len() as int));
        }
        lemma_bigint_prefix_free(a2, a1);
    }
    lemma_prefix_split(b1, g1, b2, g2);
    let u1 = t1.drop_first();
    let u2 = t2.drop_first();
    if n1 % d1 != 0 {
        lemma_later_terms_positive(d1, n1 % d1);
    }
    if n2 % d2 != 0 {
        lemma_later_terms_positive(d2, n2 % d2);
    }
    assert(forall|j: int| 0 <= j < u1.len() ==> u1[j] == t1[j + 1]);
    assert(forall|j: int| 0 <= j < u2.len() ==> u2[j] == t2[j + 1]);
    assert(terms_fit(u1)) by {
        assert forall|j: int| 0 <= j < u1.len() implies len_bytes_count(abs(#[trigger] u1[j]))
            < 0x1_0000_0000_0000_0000 by {
            assert(u1[j] == t1[j + 1]);
        }
    }
    assert(terms_fit(u2)) by {
        assert forall|j: int| 0 <= j < u2.len() implies len_bytes_count(abs(#[trigger] u2[j]))
            < 0x1_0000_0000_0000_0000 by {
            assert(u2[j] == t2[j + 1]);
        }
    }
    lemma_terms_key_prefix_free(u1, u2, 1);
}

} // verus!
