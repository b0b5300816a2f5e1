//! Mathematical model of byte strings: big-endian integer values and the
//! bytewise (`memcmp`) order the storage engine compares keys by.

use vstd::prelude::*;

verus! {

/// `256^n`.
pub open spec fn pow256(n: nat) -> nat
    decreases n,
{
    if n == 0 {
        1
    } else {
        256 * pow256((n - 1) as nat)
    }
}

/// The unsigned integer a byte string spells in big-endian order.
pub open spec fn be_value(s: Seq<u8>) -> nat
    decreases s.len(),
{
    if s.len() == 0 {
        0
    } else {
        be_value(s.drop_last()) * 256 + s.last() as nat
    }
}

/// The `n` low-order bytes of `v`, most significant first.
pub open spec fn be_bytes(v: nat, n: nat) -> Seq<u8>
    decreases n,
{
    if n == 0 {
        Seq::empty()
    } else {
        be_bytes(v / 256, (n - 1) as nat).push((v % 256) as u8)
    }
}

/// Bytewise lexicographic order, as `<[u8] as Ord>` compares: the first
/// differing byte decides, and a proper prefix sorts first.
pub open spec fn lex_lt(a: Seq<u8>, b: Seq<u8>) -> bool
    decreases a.len(),
{
    if b.len() == 0 {
        false
    } else if a.len() == 0 {
        true
    } else if a[0] != b[0] {
        a[0] < b[0]
    } else {
        lex_lt(a.drop_first(), b.drop_first())
    }
}

/// `a` sorts strictly before `b` at a byte position inside both strings:
/// they agree up to `i` and `a[i] < b[i]`. Unlike a plain `lex_lt`, this
/// survives appending arbitrary bytes to either side.
pub open spec fn sorts_before(a: Seq<u8>, b: Seq<u8>) -> bool {
    exists|i: int| #[trigger] diverge_at(a, b, i)
}

/// `a` and `b` agree before index `i`, and `a[i] < b[i]`.
pub open spec fn diverge_at(a: Seq<u8>, b: Seq<u8>, i: int) -> bool {
    &&& 0 <= i < a.len()
    &&& i < b.len()
    &&& a.take(i) == b.take(i)
    &&& a[i] < b[i]
}

/// Every byte bit-inverted.
pub open spec fn complement(s: Seq<u8>) -> Seq<u8> {
    s.map_values(|b: u8| (255 - b) as u8)
}

/// `v` as an `n`-byte two's-complement bit pattern, read as unsigned.
pub open spec fn twos(v: int, n: nat) -> nat {
    if v >= 0 {
        v as nat
    } else {
        (v + pow256(n)) as nat
    }
}

/// The signed integer an `n`-byte two's-complement pattern `u` stands for.
pub open spec fn from_twos(u: nat, n: nat) -> int {
    if u * 2 >= pow256(n) {
        u - pow256(n)
    } else {
        u as int
    }
}

/// `v` is representable as an `n`-byte signed integer.
pub open spec fn int_fits(v: int, n: nat) -> bool {
    -(pow256(n) as int) <= 2 * v < pow256(n)
}

pub proof fn lemma_twos_roundtrip(v: int, n: nat)
    requires
        int_fits(v, n),
    ensures
        twos(v, n) < pow256(n),
        from_twos(twos(v, n), n) == v,
{
}

pub proof fn lemma_from_twos_roundtrip(u: nat, n: nat)
    requires
        u < pow256(n),
    ensures
        int_fits(from_twos(u, n), n),
        twos(from_twos(u, n), n) == u,
{
}

pub proof fn lemma_pow256_positive(n: nat)
    ensures
        pow256(n) >= 1,
    decreases n,
{
    if n > 0 {
        lemma_pow256_positive((n - 1) as nat);
    }
}

/// The powers the fixed-width integer encodings use.
pub proof fn lemma_pow256_values()
    ensures
        pow256(1) == 0x100,
        pow256(2) == 0x1_0000,
        pow256(4) == 0x1_0000_0000,
        pow256(8) == 0x1_0000_0000_0000_0000,
        pow256(15) == 0x100_0000_0000_0000_0000_0000_0000_0000,
        pow256(16) == 0x1_0000_0000_0000_0000_0000_0000_0000_0000,
{
    reveal_with_fuel(pow256, 17);
}

pub proof fn lemma_pow256_add(a: nat, b: nat)
    ensures
        pow256(a + b) == pow256(a) * pow256(b),
    decreases a,
{
    if a > 0 {
        let a1 = (a - 1) as nat;
        lemma_pow256_add(a1, b);
        let x = pow256(a1);
        let y = pow256(b);
        assert(pow256(a1 + b) == x * y);
        assert(pow256(a + b) == 256 * pow256(a1 + b));
        assert(pow256(a) == 256 * x);
        assert(256 * (x * y) == (256 * x) * y) by (nonlinear_arith);
    } else {
        assert(pow256(0) == 1);
        assert(a + b == b);
    }
}

pub proof fn lemma_be_bytes_len(v: nat, n: nat)
    ensures
        be_bytes(v, n).len() == n,
    decreases n,
{
    if n > 0 {
        lemma_be_bytes_len(v / 256, (n - 1) as nat);
    }
}

pub proof fn lemma_be_value_bound(s: Seq<u8>)
    ensures
        be_value(s) < pow256(s.len()),
    decreases s.len(),
{
    if s.len() > 0 {
        let p = pow256((s.len() - 1) as nat);
        lemma_be_value_bound(s.drop_last());
        let h = be_value(s.drop_last());
        let l = s.last() as nat;
        assert(h * 256 + l < 256 * p) by (nonlinear_arith)
            requires
                h < p,
                l < 256,
        ;
    }
}

/// Reading back `n` big-endian bytes gives the value, when it fits.
pub proof fn lemma_be_value_of_bytes(v: nat, n: nat)
    requires
        v < pow256(n),
    ensures
        be_value(be_bytes(v, n)) == v,
    decreases n,
{
    if n > 0 {
        let q = v / 256;
        let p = pow256((n - 1) as nat);
        assert(q < p) by (nonlinear_arith)
            requires
                v < 256 * p,
                q == v / 256,
        ;
        lemma_be_value_of_bytes(q, (n - 1) as nat);
        let s = be_bytes(v, n);
        assert(s.drop_last() == be_bytes(q, (n - 1) as nat));
        assert(q * 256 + v % 256 == v) by (nonlinear_arith)
            requires
                q == v / 256,
        ;
    }
}

/// Writing a byte string's value back out reproduces the string.
pub proof fn lemma_be_bytes_of_value(s: Seq<u8>)
    ensures
        be_bytes(be_value(s), s.len()) == s,
    decreases s.len(),
{
    if s.len() > 0 {
        let h = be_value(s.drop_last());
        let v = h * 256 + s.last() as nat;
        lemma_be_bytes_of_value(s.drop_last());
        assert(v / 256 == h && v % 256 == s.last() as nat) by (nonlinear_arith)
            requires
                v == h * 256 + s.last() as nat,
                s.last() < 256,
        ;
        assert(be_bytes(v, s.len()) =~= s);
    }
}

/// Big-endian value split at the leading byte.
pub proof fn lemma_be_value_first(s: Seq<u8>)
    requires
        s.len() > 0,
    ensures
        be_value(s) == s[0] as nat * pow256((s.len() - 1) as nat) + be_value(s.drop_first()),
    decreases s.len(),
{
    if s.len() == 1 {
        assert(s.drop_last().len() == 0);
        assert(s.drop_first().len() == 0);
        assert(be_value(s.drop_last()) == 0);
        assert(be_value(s.drop_first()) == 0);
        assert(pow256(0) == 1);
        assert(s.last() == s[0]);
        assert(s[0] as nat * pow256(0) == s[0] as nat);
    } else {
        let d = s.drop_last();
        lemma_be_value_first(d);
        assert(pow256((s.len() - 1) as nat) == 256 * pow256((d.len() - 1) as nat));
        assert(d[0] == s[0]);
        assert(d.drop_first() == s.drop_first().drop_last());
        assert(s.drop_first().last() == s.last());
        let p = pow256((d.len() - 1) as nat);
        let a = s[0] as nat;
        let r = be_value(d.drop_first());
        assert((a * p + r) * 256 + s.last() as nat == a * (256 * p) + (r * 256 + s.last() as nat))
            by (nonlinear_arith);
        assert(be_value(s.drop_first()) == r * 256 + s.last() as nat);
        assert(be_value(s) == (a * p + r) * 256 + s.last() as nat);
    }
}

/// Appending to a prefix: the big-endian value of a concatenation.
pub proof fn lemma_be_value_concat(a: Seq<u8>, b: Seq<u8>)
    ensures
        be_value(a + b) == be_value(a) * pow256(b.len()) + be_value(b),
    decreases b.len(),
{
    if b.len() == 0 {
        assert(a + b =~= a);
        assert(pow256(0) == 1);
        assert(be_value(b) == 0);
    } else {
        lemma_be_value_concat(a, b.drop_last());
        assert((a + b).drop_last() =~= a + b.drop_last());
        assert((a + b).last() == b.last());
        let x = be_value(a);
        let y = be_value(b.drop_last());
        let p = pow256((b.len() - 1) as nat);
        assert(pow256(b.len()) == 256 * p);
        assert((x * p + y) * 256 + b.last() as nat == x * (256 * p) + (y * 256 + b.last() as nat))
            by (nonlinear_arith);
    }
}

/// For strings of equal length, a smaller big-endian value sorts first.
pub proof fn lemma_be_order(a: Seq<u8>, b: Seq<u8>)
    requires
        a.len() == b.len(),
        be_value(a) < be_value(b),
    ensures
        sorts_before(a, b),
    decreases a.len(),
{
    let n = a.len();
    lemma_be_value_first(a);
    lemma_be_value_first(b);
    let p = pow256((n - 1) as nat);
    lemma_be_value_bound(a.drop_first());
    lemma_be_value_bound(b.drop_first());
    let ra = be_value(a.drop_first());
    let rb = be_value(b.drop_first());
    let x = a[0] as nat;
    let y = b[0] as nat;
    if x < y {
        assert(a.take(0) =~= b.take(0));
        assert(diverge_at(a, b, 0));
    } else if x > y {
        assert(x * p + ra >= y * p + rb) by (nonlinear_arith)
            requires
                x > y,
                ra >= 0,
                rb < p,
        ;
    } else {
        assert(ra < rb);
        lemma_be_order(a.drop_first(), b.drop_first());
        let i = choose|i: int| diverge_at(a.drop_first(), b.drop_first(), i);
        assert(a.take(i + 1) =~= seq![a[0]] + a.drop_first().take(i));
        assert(b.take(i + 1) =~= seq![b[0]] + b.drop_first().take(i));
        assert(diverge_at(a, b, i + 1));
    }
}

/// `sorts_before` is the strict bytewise order (`<[u8] as Ord>`).
pub proof fn lemma_sorts_before_lex(a: Seq<u8>, b: Seq<u8>)
    requires
        sorts_before(a, b),
    ensures
        lex_lt(a, b),
    decreases a.len(),
{
    let i = choose|i: int| diverge_at(a, b, i);
    if i > 0 {
        assert(a[0] == a.take(i)[0]);
        assert(b[0] == b.take(i)[0]);
        assert(a.drop_first().take(i - 1) =~= a.take(i).drop_first());
        assert(b.drop_first().take(i - 1) =~= b.take(i).drop_first());
        assert(diverge_at(a.drop_first(), b.drop_first(), i - 1));
        lemma_sorts_before_lex(a.drop_first(), b.drop_first());
    }
}

/// Bytes appended after the diverging position never change the outcome.
pub proof fn lemma_sorts_before_extend(a: Seq<u8>, b: Seq<u8>, x: Seq<u8>, y: Seq<u8>)
    requires
        sorts_before(a, b),
    ensures
        sorts_before(a + x, b + y),
{
    let i = choose|i: int| diverge_at(a, b, i);
    assert((a + x).take(i) =~= a.take(i));
    assert((b + y).take(i) =~= b.take(i));
    assert(diverge_at(a + x, b + y, i));
}

/// A common prefix never changes the outcome.
pub proof fn lemma_sorts_before_prepend(p: Seq<u8>, a: Seq<u8>, b: Seq<u8>)
    requires
        sorts_before(a, b),
    ensures
        sorts_before(p + a, p + b),
{
    let i = choose|i: int| diverge_at(a, b, i);
    assert((p + a).take(p.len() + i) =~= p + a.take(i));
    assert((p + b).take(p.len() + i) =~= p + b.take(i));
    assert(diverge_at(p + a, p + b, p.len() + i));
}

/// Bit-inverting both strings reverses the order.
pub proof fn lemma_sorts_before_complement(a: Seq<u8>, b: Seq<u8>)
    requires
        sorts_before(a, b),
    ensures
        sorts_before(complement(b), complement(a)),
{
    let i = choose|i: int| diverge_at(a, b, i);
    assert(complement(a).take(i) =~= complement(b).take(i)) by {
        assert forall|j: int| 0 <= j < i implies complement(a).take(i)[j] == complement(b).take(
            i,
        )[j] by {
            assert(a.take(i)[j] == b.take(i)[j]);
        }
    }
    assert(diverge_at(complement(b), complement(a), i));
}

/// A bytewise-smaller string that is not a prefix of the other sorts before
/// it at a position inside both.
pub proof fn lemma_lex_sorts_before(a: Seq<u8>, b: Seq<u8>)
    requires
        lex_lt(a, b),
        !a.is_prefix_of(b),
    ensures
        sorts_before(a, b),
    decreases a.len(),
{
    if a.len() == 0 {
        assert(a =~= b.subrange(0, 0));
    } else if a[0] != b[0] {
        assert(a.take(0) =~= b.take(0));
        assert(diverge_at(a, b, 0));
    } else {
        if a.drop_first().is_prefix_of(b.drop_first()) {
            assert forall|k: int| 0 <= k < a.len() implies a[k] == b.subrange(
                0,
                a.len() as int,
            )[k] by {
                if k > 0 {
                    assert(a[k] == a.drop_first()[k - 1]);
                    assert(a.drop_first()[k - 1] == b.drop_first().subrange(
                        0,
                        a.len() - 1,
                    )[k - 1]);
                }
            }
            assert(a =~= b.subrange(0, a.len() as int));
        }
        lemma_lex_sorts_before(a.drop_first(), b.drop_first());
        let i = choose|i: int| diverge_at(a.drop_first(), b.drop_first(), i);
        assert(a.take(i + 1) =~= seq![a[0]] + a.drop_first().take(i));
        assert(b.take(i + 1) =~= seq![b[0]] + b.drop_first().take(i));
        assert(diverge_at(a, b, i + 1));
    }
}

/// Strings that sort apart at a position inside both are prefixes of neither.
pub proof fn lemma_sorts_before_not_prefix(a: Seq<u8>, b: Seq<u8>)
    requires
        sorts_before(a, b),
    ensures
        !a.is_prefix_of(b),
        !b.is_prefix_of(a),
{
    let i = choose|i: int| diverge_at(a, b, i);
    if a.is_prefix_of(b) {
        assert(a[i] == b.subrange(0, a.len() as int)[i]);
    }
    if b.is_prefix_of(a) {
        assert(b[i] == a.subrange(0, b.len() as int)[i]);
    }
}

/// Sorting before at a byte position is transitive, so the order-preserving
/// encodings order their values consistently.
pub proof fn lemma_sorts_before_transitive(a: Seq<u8>, b: Seq<u8>, c: Seq<u8>)
    requires
        sorts_before(a, b),
        sorts_before(b, c),
    ensures
        sorts_before(a, c),
{
    let i = choose|i: int| diverge_at(a, b, i);
    let j = choose|j: int| diverge_at(b, c, j);
    let k = if i < j { i } else { j };
    assert(a.take(k) =~= c.take(k)) by {
        assert forall|t: int| 0 <= t < k implies a.take(k)[t] == c.take(k)[t] by {
            assert(a.take(i)[t] == b.take(i)[t]);
            assert(b.take(j)[t] == c.take(j)[t]);
        }
    }
    if i < j {
        assert(b.take(j)[i] == c.take(j)[i]);
    } else if j < i {
        assert(a.take(i)[j] == b.take(i)[j]);
    }
    assert(diverge_at(a, c, k));
}


/// Two different byte strings are ordered one way or the other.
pub proof fn lemma_lex_total(a: Seq<u8>, b: Seq<u8>)
    requires
        a != b,
    ensures
        lex_lt(a, b) || lex_lt(b, a),
    decreases a.len(),
{
    if a.len() > 0 && b.len() > 0 && a[0] == b[0] {
        if a.drop_first() == b.drop_first() {
            assert(a =~= seq![a[0]] + a.drop_first());
            assert(b =~= seq![b[0]] + b.drop_first());
        }
        lemma_lex_total(a.drop_first(), b.drop_first());
    } else if a.len() == 0 && b.len() == 0 {
        assert(a =~= b);
    }
}

/// The order is asymmetric (and so irreflexive).
pub proof fn lemma_lex_asym(a: Seq<u8>, b: Seq<u8>)
    requires
        lex_lt(a, b),
    ensures
        !lex_lt(b, a),
        a != b,
    decreases a.len(),
{
    if a.len() > 0 && b.len() > 0 && a[0] == b[0] {
        lemma_lex_asym(a.drop_first(), b.drop_first());
    }
}

/// The order is transitive.
pub proof fn lemma_lex_transitive(a: Seq<u8>, b: Seq<u8>, c: Seq<u8>)
    requires
        lex_lt(a, b),
        lex_lt(b, c),
    ensures
        lex_lt(a, c),
    decreases a.len(),
{
    if a.len() > 0 && b.len() > 0 && c.len() > 0 && a[0] == b[0] && b[0] == c[0] {
        lemma_lex_transitive(a.drop_first(), b.drop_first(), c.drop_first());
    }
}

/// Whether `a` sorts strictly before `b` bytewise.
pub fn bytes_lt(a: &[u8], b: &[u8]) -> (r: bool)
    ensures
        r == lex_lt(a@, b@),
{
    let mut i: usize = 0;
    assert(a@.skip(0) =~= a@);
    assert(b@.skip(0) =~= b@);
    while i < a.len() && i < b.len()
        invariant
            i <= a@.len(),
            i <= b@.len(),
            lex_lt(a@, b@) == lex_lt(a@.skip(i as int), b@.skip(i as int)),
        decreases a@.len() - i,
    {
        if a[i] != b[i] {
            return a[i] < b[i];
        }
        assert(a@.skip(i as int).drop_first() =~= a@.skip(i + 1));
        assert(b@.skip(i as int).drop_first() =~= b@.skip(i + 1));
        i = i + 1;
    }
    i < b.len()
}

/// Whether two byte strings are equal.
pub fn bytes_eq(a: &[u8], b: &[u8]) -> (r: bool)
    ensures
        r == (a@ == b@),
{
    if a.len() != b.len() {
        return false;
    }
    let mut i: usize = 0;
    while i < a.len()
        invariant
            a@.len() == b@.len(),
            i <= a@.len(),
            a@.take(i as int) == b@.take(i as int),
        decreases a@.len() - i,
    {
        if a[i] != b[i] {
            assert(a@[i as int] != b@[i as int]);
            return false;
        }
        assert(a@.take(i + 1) =~= a@.take(i as int).push(a@[i as int]));
        assert(b@.take(i + 1) =~= b@.take(i as int).push(b@[i as int]));
        i = i + 1;
    }
    assert(a@ =~= a@.take(i as int));
    assert(b@ =~= b@.take(i as int));
    true
}

} // verus!
