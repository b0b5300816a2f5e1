//! Standard-alphabet, padded Base64 (RFC 4648, section 4), used to render the
//! `Bytes` scalar as text. Encoding only: an export is never parsed back.

use crate::text::push_char;
use vstd::prelude::*;

verus! {

/// The character of a 6-bit Base64 digit in the standard alphabet
/// `A-Z a-z 0-9 + /`.
pub open spec fn b64_char(v: nat) -> char {
    if v < 26 {
        ((v + 65) as u8) as char
    } else if v < 52 {
        ((v + 71) as u8) as char
    } else if v < 62 {
        ((v - 4) as u8) as char
    } else if v == 62 {
        '+'
    } else {
        '/'
    }
}

/// The four characters of the `j`-th three-byte group of `b`; a group cut short
/// by the end of the input is padded with `=`.
pub open spec fn group_text(b: Seq<u8>, j: int) -> Seq<char> {
    let s = 3 * j;
    let has1 = s + 1 < b.len();
    let has2 = s + 2 < b.len();
    let b0 = b[s] as nat;
    let b1: nat = if has1 { b[s + 1] as nat } else { 0 };
    let b2: nat = if has2 { b[s + 2] as nat } else { 0 };
    seq![
        b64_char(b0 / 4),
        b64_char((b0 % 4) * 16 + b1 / 16),
        if has1 { b64_char((b1 % 16) * 4 + b2 / 64) } else { '=' },
        if has2 { b64_char(b2 % 64) } else { '=' },
    ]
}

/// The text of the first `k` groups of `b`.
pub open spec fn groups_text(b: Seq<u8>, k: nat) -> Seq<char>
    decreases k,
{
    if k == 0 {
        Seq::empty()
    } else {
        groups_text(b, (k - 1) as nat) + group_text(b, k - 1)
    }
}

/// The padded Base64 text of `b`.
pub open spec fn base64_text(b: Seq<u8>) -> Seq<char> {
    groups_text(b, ((b.len() + 2) / 3) as nat)
}

/// Whether `c` is one of the 64 digits of the standard alphabet.
pub open spec fn is_b64_digit(c: char) -> bool {
    let u = c as u32;
    (65 <= u <= 90) || (97 <= u <= 122) || (48 <= u <= 57) || u == 43 || u == 47
}

/// How many `=` close the Base64 text of `n` bytes.
pub open spec fn padding_len(n: nat) -> int {
    (3 - n % 3) % 3
}

proof fn lemma_b64_char_digit(v: nat)
    requires
        v < 64,
    ensures
        is_b64_digit(b64_char(v)),
{
}

proof fn lemma_groups_len(b: Seq<u8>, k: nat)
    ensures
        groups_text(b, k).len() == 4 * k,
    decreases k,
{
    if k > 0 {
        lemma_groups_len(b, (k - 1) as nat);
    }
}

/// Character `i` of the first `k` groups is character `i % 4` of group `i / 4`.
proof fn lemma_groups_index(b: Seq<u8>, k: nat, i: int)
    requires
        0 <= i < 4 * k,
    ensures
        groups_text(b, k)[i] == group_text(b, i / 4)[i % 4],
    decreases k,
{
    lemma_groups_len(b, (k - 1) as nat);
    if i < 4 * (k - 1) {
        lemma_groups_index(b, (k - 1) as nat, i);
    } else {
        assert(i / 4 == k - 1 && i % 4 == i - 4 * (k - 1)) by (nonlinear_arith)
            requires
                4 * (k - 1) <= i < 4 * k,
        ;
    }
}

/// The shape of Base64 text: four characters per started three-byte group,
/// each a digit of the alphabet except the closing `=` padding, of which
/// there are `(3 - n % 3) % 3` and which occurs nowhere else.
pub proof fn lemma_base64_shape(b: Seq<u8>)
    ensures
        base64_text(b).len() == 4 * ((b.len() + 2) / 3),
        forall|i: int|
            0 <= i < base64_text(b).len() ==> (#[trigger] base64_text(b)[i] == '=' <==> i
                >= base64_text(b).len() - padding_len(b.len())),
        forall|i: int|
            0 <= i < base64_text(b).len() && #[trigger] base64_text(b)[i] != '='
                ==> is_b64_digit(base64_text(b)[i]),
{
    let n = b.len();
    let k = ((n + 2) / 3) as nat;
    let t = base64_text(b);
    lemma_groups_len(b, k);
    assert forall|i: int| 0 <= i < t.len() implies (#[trigger] t[i] == '=' <==> i >= t.len()
        - padding_len(n)) && (t[i] != '=' ==> is_b64_digit(t[i])) by {
        lemma_groups_index(b, k, i);
        let j = i / 4;
        let p = i % 4;
        assert(0 <= j < k && 0 <= p < 4 && i == 4 * j + p) by (nonlinear_arith)
            requires
                0 <= i < 4 * k,
                j == i / 4,
                p == i % 4,
        ;
        assert(3 * j < n && (j < k - 1 ==> 3 * j + 2 < n) && (j == k - 1 ==> n - 3 * j <= 3))
            by (nonlinear_arith)
            requires
                0 <= j < k,
                k == (n + 2) / 3,
        ;
        let s = 3 * j;
        let b0 = b[s] as nat;
        let b1: nat = if s + 1 < n { b[s + 1] as nat } else { 0 };
        let b2: nat = if s + 2 < n { b[s + 2] as nat } else { 0 };
        assert(b0 / 4 < 64 && (b0 % 4) * 16 + b1 / 16 < 64 && (b1 % 16) * 4 + b2 / 64 < 64
            && b2 % 64 < 64) by (nonlinear_arith)
            requires
                b0 < 256,
                b1 < 256,
                b2 < 256,
        ;
        lemma_b64_char_digit(b0 / 4);
        lemma_b64_char_digit((b0 % 4) * 16 + b1 / 16);
        lemma_b64_char_digit((b1 % 16) * 4 + b2 / 64);
        lemma_b64_char_digit(b2 % 64);
        assert(n % 3 == n - 3 * (k - 1) || (n % 3 == 0 && n - 3 * (k - 1) == 3))
            by (nonlinear_arith)
            requires
                k == (n + 2) / 3,
                k >= 1,
        ;
    }
}

/// Base64 works group by group: after a whole number of three-byte groups,
/// the text of a concatenation is the concatenation of the texts.
pub proof fn lemma_base64_concat(a: Seq<u8>, b: Seq<u8>)
    requires
        a.len() % 3 == 0,
    ensures
        base64_text(a + b) == base64_text(a) + base64_text(b),
{
    let ka = a.len() / 3;
    let kb = (b.len() + 2) / 3;
    assert((a.len() + b.len() + 2) / 3 == ka + kb && (a.len() + 2) / 3 == ka)
        by (nonlinear_arith)
        requires
            a.len() % 3 == 0,
            ka == a.len() / 3,
            kb == (b.len() + 2) / 3,
    ;
    assert(3 * kb <= b.len() + 2) by (nonlinear_arith)
        requires
            kb == (b.len() + 2) / 3,
    ;
    lemma_groups_prefix(a, b, ka as nat);
    lemma_groups_suffix(a, b, kb as nat);
}

/// The groups inside `a` read the same in `a + b`.
proof fn lemma_groups_prefix(a: Seq<u8>, b: Seq<u8>, k: nat)
    requires
        3 * k <= a.len(),
    ensures
        groups_text(a + b, k) == groups_text(a, k),
    decreases k,
{
    if k > 0 {
        lemma_groups_prefix(a, b, (k - 1) as nat);
        let s = 3 * (k - 1);
        assert((a + b)[s] == a[s] && (a + b)[s + 1] == a[s + 1] && (a + b)[s + 2] == a[s + 2]);
        assert(group_text(a + b, k - 1) =~= group_text(a, k - 1));
    }
}

/// The groups after `a` (a whole number of groups) are those of `b`.
proof fn lemma_groups_suffix(a: Seq<u8>, b: Seq<u8>, k: nat)
    requires
        a.len() % 3 == 0,
        3 * k <= b.len() + 2,
    ensures
        groups_text(a + b, (a.len() / 3 + k) as nat) == groups_text(a + b, (a.len() / 3) as nat)
            + groups_text(b, k),
    decreases k,
{
    let ka = a.len() / 3;
    assert(3 * ka == a.len()) by (nonlinear_arith)
        requires
            a.len() % 3 == 0,
            ka == a.len() / 3,
    ;
    if k == 0 {
        assert(groups_text(b, 0) =~= Seq::<char>::empty());
        assert(groups_text(a + b, ka as nat) + groups_text(b, 0) =~= groups_text(a + b, ka as nat));
    } else {
        lemma_groups_suffix(a, b, (k - 1) as nat);
        let j = k - 1;
        let s = 3 * (ka + j);
        assert(s == a.len() + 3 * j);
        assert(s + 1 < (a + b).len() <==> 3 * j + 1 < b.len());
        assert(s + 2 < (a + b).len() <==> 3 * j + 2 < b.len());
        assert((a + b)[s] == b[3 * j]);
        assert(3 * j + 1 < b.len() ==> (a + b)[s + 1] == b[3 * j + 1]);
        assert(3 * j + 2 < b.len() ==> (a + b)[s + 2] == b[3 * j + 2]);
        assert(group_text(a + b, ka + j) =~= group_text(b, j));
        assert((ka + k - 1) as nat == (ka + j) as nat);
        assert(groups_text(a + b, (ka + k) as nat) =~= groups_text(a + b, (ka + j) as nat)
            + group_text(a + b, ka + j));
        assert(groups_text(b, k) =~= groups_text(b, j as nat) + group_text(b, j));
        assert(groups_text(a + b, (ka + k) as nat) =~= groups_text(a + b, ka as nat) + groups_text(
            b,
            k,
        ));
    }
}

/// The Base64 digit for a 6-bit value.
fn digit(v: u8) -> (c: char)
    requires
        v < 64,
    ensures
        c == b64_char(v as nat),
{
    if v < 26 {
        (v + 65) as char
    } else if v < 52 {
        (v + 71) as char
    } else if v < 62 {
        (v - 4) as char
    } else if v == 62 {
        '+'
    } else {
        '/'
    }
}

/// Encodes `input` as a padded Base64 string.
pub fn encode(input: &[u8]) -> (s: String)
    ensures
        s@ == base64_text(input@),
{
    let mut out = String::new();
    let n = input.len();
    let groups = n / 3 + if n % 3 == 0 { 0 } else { 1 };
    assert(groups == (input@.len() + 2) / 3);
    let mut j: usize = 0;
    while j < groups
        invariant
            n == input@.len(),
            groups == (n + 2) / 3,
            j <= groups,
            out@ == groups_text(input@, j as nat),
        decreases groups - j,
    {
        let s = 3 * j;
        let b0 = input[s];
        let has1 = s + 1 < n;
        let has2 = s + 2 < n;
        let b1: u8 = if has1 { input[s + 1] } else { 0 };
        let b2: u8 = if has2 { input[s + 2] } else { 0 };
        push_char(&mut out, digit(b0 / 4));
        push_char(&mut out, digit((b0 % 4) * 16 + b1 / 16));
        if has1 {
            push_char(&mut out, digit((b1 % 16) * 4 + b2 / 64));
        } else {
            push_char(&mut out, '=');
        }
        if has2 {
            push_char(&mut out, digit(b2 % 64));
        } else {
            push_char(&mut out, '=');
        }
        assert(out@ =~= groups_text(input@, (j + 1) as nat));
        j = j + 1;
    }
    out
}

} // verus!
