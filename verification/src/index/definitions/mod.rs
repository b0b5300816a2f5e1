//! Index definitions: the user-facing description of a secondary index, and
//! its registry encoding.

pub mod column;
pub mod direction;
pub mod index;

use crate::bytes::{be_bytes, be_value, lemma_be_bytes_len, lemma_be_value_of_bytes, lemma_pow256_values};
use crate::codec::{length_prefix, Reader};
use crate::error::{corrupt, SdbResult};
use crate::scalar::utf8_str;
use vstd::prelude::*;
use vstd::utf8::{decode_utf8, encode_utf8, encode_utf8_decode_utf8, encode_utf8_valid_utf8, valid_utf8};

verus! {

/// How reading a record from the front of some bytes ends: with the value and
/// the number of bytes it took, or with the kind of failure.
pub enum ParseOutcome<T> {
    /// The value, and how many bytes it spanned.
    Done(T, int),
    /// The bytes are truncated or malformed.
    Corrupt,
    /// A column path in the record is not valid path text.
    BadPath,
}

/// A string field: its UTF-8 bytes, length-prefixed.
pub open spec fn str_field(s: Seq<char>) -> Seq<u8> {
    length_prefix(encode_utf8(s).len()) + encode_utf8(s)
}

/// The length-prefixed UTF-8 string at the front of `r` and its size, or
/// `None` when it is truncated or not UTF-8.
pub open spec fn str_parse(r: Seq<u8>) -> Option<(Seq<char>, int)> {
    if r.len() >= 4 && 4 + be_value(r.take(4)) <= r.len() {
        let n = be_value(r.take(4)) as int;
        let body = r.subrange(4, 4 + n);
        if valid_utf8(body) {
            Some((decode_utf8(body), 4 + n))
        } else {
            None
        }
    } else {
        None
    }
}

/// Reads a length-prefixed UTF-8 string.
pub fn read_string(r: &mut Reader<'_>) -> (res: SdbResult<String>)
    ensures
        match str_parse(old(r)@) {
            Some((s, n)) => res matches Ok(x) && x@ == s && final(r)@ == old(r)@.skip(n),
            None => res matches Err(e) && e is Corrupt,
        },
{
    let bytes = r.bytes()?;
    match utf8_str(bytes) {
        Some(s) => Ok(s.to_string()),
        None => Err(corrupt("invalid utf-8 in index definition")),
    }
}


/// A string field followed by anything reads back as the string.
pub proof fn lemma_str_roundtrip(s: Seq<char>, rest: Seq<u8>)
    requires
        encode_utf8(s).len() < 0x1_0000_0000,
    ensures
        str_parse(str_field(s) + rest) == Some((s, str_field(s).len() as int)),
        str_field(s).len() == 4 + encode_utf8(s).len(),
{
    let u = encode_utf8(s);
    lemma_pow256_values();
    lemma_be_bytes_len(u.len(), 4);
    lemma_be_value_of_bytes(u.len(), 4);
    encode_utf8_valid_utf8(s);
    encode_utf8_decode_utf8(s);
    let r = str_field(s) + rest;
    assert(r.take(4) =~= be_bytes(u.len(), 4));
    assert(r.subrange(4, 4 + u.len() as int) =~= u);
}
} // verus!
