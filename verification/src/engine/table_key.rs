//! The composite key type stored in a StratoDB data table.
//!
//! [`TableKey`]'s leading discriminant partitions the key space into contiguous
//! `Data` and index ranges, so a single engine table holds both nodes and index
//! entries. The encoding is order-preserving, so key comparison reduces to a
//! bytewise comparison of the encoded bytes.
//!
//! Index keys are laid out so a prefix scan works: `tag · id · cols`, where
//! `cols` is the raw, self-delimiting order-preserving encoding of the indexed
//! columns with no length prefix (a length prefix would sort by length before
//! content and defeat prefix queries). A non-unique index appends the 16-byte
//! entity key as a tie-breaker; a unique index stores the entity in the value
//! instead, so its key ends after `cols`. The two cases use distinct tags so the
//! decoder knows whether a trailing entity key is present.

use crate::bytes::{
    be_bytes, be_value, diverge_at, lemma_be_bytes_len, lemma_be_bytes_of_value,
    lemma_pow256_values, lemma_sorts_before_extend, lemma_sorts_before_prepend, sorts_before,
};
use crate::codec::{append_bytes, push_be, put_u32};
use crate::error::{corrupt, SdbResult};
use crate::index::id::IndexId;
use crate::key::{key_bytes, lemma_key_bytes_roundtrip, Skey};
use vstd::prelude::*;

verus! {

pub const DATA_TAG: u8 = 0;

/// Non-unique index entry: `id · cols · entity`.
pub const INDEX_DUP_TAG: u8 = 2;

/// Unique index entry: `id · cols` (the entity is in the value).
pub const INDEX_UNIQUE_TAG: u8 = 3;

/// The key of an entry in a StratoDB data table.
#[derive(Clone, Debug, PartialEq, Eq)]
pub enum TableKey {
    /// A node, addressed by its primary key.
    Data(Skey),
    /// An index entry. `cols` is the order-preserving encoding of the indexed
    /// columns; `entity` is `Some` for non-unique indexes (the entity lives in
    /// the key) and `None` for unique ones (the entity is in the value).
    Index { id: IndexId, cols: Vec<u8>, entity: Option<Skey> },
}

/// The mathematical form of a [`TableKey`].
pub enum TableKeyView {
    Data(u128),
    Index { id: u32, cols: Seq<u8>, entity: Option<u128> },
}

impl View for TableKey {
    type V = TableKeyView;

    open spec fn view(&self) -> TableKeyView {
        match self {
            TableKey::Data(k) => TableKeyView::Data(k@),
            TableKey::Index { id, cols, entity } => TableKeyView::Index {
                id: id.0,
                cols: cols@,
                entity: match entity {
                    Some(e) => Some(e@),
                    None => None,
                },
            },
        }
    }
}

/// The engine bytes of a table key.
pub open spec fn table_key_bytes(k: TableKeyView) -> Seq<u8> {
    match k {
        TableKeyView::Data(key) => seq![DATA_TAG] + key_bytes(key),
        TableKeyView::Index { id, cols, entity } => match entity {
            Some(e) => seq![INDEX_DUP_TAG] + be_bytes(id as nat, 4) + cols + key_bytes(e),
            None => seq![INDEX_UNIQUE_TAG] + be_bytes(id as nat, 4) + cols,
        },
    }
}

/// The table key engine bytes spell, or `None` when they are malformed.
pub open spec fn table_key_parse(b: Seq<u8>) -> Option<TableKeyView> {
    if b.len() == 0 {
        None
    } else {
        let r = b.skip(1);
        if b[0] == DATA_TAG {
            if r.len() == 16 {
                Some(TableKeyView::Data(be_value(r) as u128))
            } else {
                None
            }
        } else if b[0] == INDEX_DUP_TAG {
            if r.len() >= 20 {
                Some(
                    TableKeyView::Index {
                        id: be_value(r.take(4)) as u32,
                        cols: r.subrange(4, r.len() - 16),
                        entity: Some(be_value(r.skip(r.len() - 16)) as u128),
                    },
                )
            } else {
                None
            }
        } else if b[0] == INDEX_UNIQUE_TAG {
            if r.len() >= 4 {
                Some(
                    TableKeyView::Index {
                        id: be_value(r.take(4)) as u32,
                        cols: r.skip(4),
                        entity: None,
                    },
                )
            } else {
                None
            }
        } else {
            None
        }
    }
}

impl TableKey {
    /// A new key with the same content.
    pub fn duplicate(&self) -> (r: TableKey)
        ensures
            r@ == self@,
    {
        match self {
            TableKey::Data(k) => TableKey::Data(Skey::from_u128(k.as_u128())),
            TableKey::Index { id, cols, entity } => {
                let c = cols.clone();
                assert(c@ =~= cols@);
                let e = match entity {
                    Some(k) => Some(Skey::from_u128(k.as_u128())),
                    None => None,
                };
                TableKey::Index { id: IndexId(id.0), cols: c, entity: e }
            },
        }
    }

    /// The engine bytes of this key.
    pub fn encode(&self) -> (buf: Vec<u8>)
        ensures
            buf@ == table_key_bytes(self@),
    {
        let mut buf: Vec<u8> = Vec::new();
        match self {
            TableKey::Data(skey) => {
                buf.push(DATA_TAG);
                push_be(&mut buf, skey.as_u128(), 16);
            },
            TableKey::Index { id, cols, entity: Some(entity) } => {
                buf.push(INDEX_DUP_TAG);
                put_u32(&mut buf, id.0);
                append_bytes(&mut buf, cols.as_slice());
                push_be(&mut buf, entity.as_u128(), 16);
            },
            TableKey::Index { id, cols, entity: None } => {
                buf.push(INDEX_UNIQUE_TAG);
                put_u32(&mut buf, id.0);
                append_bytes(&mut buf, cols.as_slice());
            },
        }
        assert(buf@ =~= table_key_bytes(self@));
        buf
    }

    /// Decodes engine bytes written by [`TableKey::encode`].
    pub fn decode(data: &[u8]) -> (r: SdbResult<TableKey>)
        ensures
            match table_key_parse(data@) {
                Some(k) => r matches Ok(x) && x@ == k,
                None => r matches Err(e) && e is Corrupt,
            },
    {
        if data.len() == 0 {
            return Err(corrupt("empty table key"));
        }
        let tag = data[0];
        let rest = slice_from(data, 1);
        assert(rest@ =~= data@.skip(1));
        if tag == DATA_TAG {
            if rest.len() != 16 {
                return Err(corrupt("malformed data key"));
            }
            Ok(TableKey::Data(skey_from(rest)))
        } else if tag == INDEX_DUP_TAG {
            let (id, body) = split_id(rest)?;
            if body.len() < 16 {
                return Err(corrupt("non-unique index key missing entity"));
            }
            let cut = body.len() - 16;
            let cols = copy_range(body, 0, cut);
            let entity = skey_from(slice_from(body, cut));
            assert(body@.skip(cut as int) =~= rest@.skip(rest@.len() - 16));
            assert(cols@ =~= rest@.subrange(4, rest@.len() - 16));
            Ok(TableKey::Index { id, cols, entity: Some(entity) })
        } else if tag == INDEX_UNIQUE_TAG {
            let (id, body) = split_id(rest)?;
            let cols = copy_range(body, 0, body.len());
            assert(cols@ =~= rest@.skip(4));
            Ok(TableKey::Index { id, cols, entity: None })
        } else {
            Err(corrupt("unknown table key tag"))
        }
    }
}

/// The bytes of `s` from `start` on.
fn slice_from<'a>(s: &'a [u8], start: usize) -> (r: &'a [u8])
    requires
        start <= s@.len(),
    ensures
        r@ == s@.skip(start as int),
{
    let r = &s[start..s.len()];
    assert(r@ =~= s@.skip(start as int));
    r
}

/// An owned copy of `s[start..end]`.
fn copy_range(s: &[u8], start: usize, end: usize) -> (v: Vec<u8>)
    requires
        start <= end <= s@.len(),
    ensures
        v@ == s@.subrange(start as int, end as int),
{
    let mut v: Vec<u8> = Vec::new();
    append_bytes(&mut v, &s[start..end]);
    v
}

/// The key spelled by exactly 16 bytes.
fn skey_from(s: &[u8]) -> (k: Skey)
    requires
        s@.len() == 16,
    ensures
        k@ == be_value(s@),
{
    match Skey::try_from_bytes(s) {
        Ok(k) => k,
        Err(_) => Skey::root(),
    }
}

/// Splits a leading big-endian `IndexId` off an index key body.
pub fn split_id(body: &[u8]) -> (r: SdbResult<(IndexId, &[u8])>)
    ensures
        match r {
            Ok((id, rest)) => body@.len() >= 4 && id.0 == be_value(body@.take(4)) && rest@
                == body@.skip(4),
            Err(e) => body@.len() < 4 && e is Corrupt,
        },
{
    if body.len() < 4 {
        return Err(corrupt("index key missing id"));
    }
    let mut v: u32 = 0;
    let mut i: usize = 0;
    while i < 4
        invariant
            body@.len() >= 4,
            i <= 4,
            v as nat == be_value(body@.take(i as int)),
        decreases 4 - i,
    {
        proof {
            crate::bytes::lemma_be_value_bound(body@.take(i as int));
            crate::codec::lemma_pow256_le(i as nat, 3);
            lemma_pow256_values();
            assert(crate::bytes::pow256(3) == 0x100_0000) by {
                reveal_with_fuel(crate::bytes::pow256, 4);
            }
            assert(body@.take(i + 1).drop_last() =~= body@.take(i as int));
        }
        v = v * 256 + body[i] as u32;
        i = i + 1;
    }
    Ok((IndexId(v), slice_from(body, 4)))
}

/// Decoding the bytes of a key gives the key back.
pub proof fn lemma_table_key_roundtrip(k: TableKeyView)
    ensures
        table_key_parse(table_key_bytes(k)) == Some(k),
{
    lemma_pow256_values();
    let b = table_key_bytes(k);
    match k {
        TableKeyView::Data(key) => {
            lemma_key_bytes_roundtrip(key);
            assert(b.skip(1) =~= key_bytes(key));
        },
        TableKeyView::Index { id, cols, entity } => {
            lemma_be_bytes_len(id as nat, 4);
            crate::bytes::lemma_be_value_of_bytes(id as nat, 4);
            match entity {
                Some(e) => {
                    lemma_key_bytes_roundtrip(e);
                    let r = b.skip(1);
                    assert(r =~= be_bytes(id as nat, 4) + cols + key_bytes(e));
                    assert(r.take(4) =~= be_bytes(id as nat, 4));
                    assert(r.subrange(4, r.len() - 16) =~= cols);
                    assert(r.skip(r.len() - 16) =~= key_bytes(e));
                },
                None => {
                    let r = b.skip(1);
                    assert(r =~= be_bytes(id as nat, 4) + cols);
                    assert(r.take(4) =~= be_bytes(id as nat, 4));
                    assert(r.skip(4) =~= cols);
                },
            }
        },
    }
}

/// The order table keys take in the engine, which the encoding realises.
pub open spec fn table_key_lt(a: TableKeyView, b: TableKeyView) -> bool {
    match (a, b) {
        (TableKeyView::Data(x), TableKeyView::Data(y)) => x < y,
        (TableKeyView::Data(_), TableKeyView::Index { .. }) => true,
        (
            TableKeyView::Index { id: ia, cols: ca, entity: ea },
            TableKeyView::Index { id: ib, cols: cb, entity: eb },
        ) => (ea is Some) == (eb is Some) && (ia < ib || (ia == ib && (sorts_before(ca, cb) || (ca
            == cb && match (ea, eb) {
            (Some(x), Some(y)) => x < y,
            _ => false,
        })))),
        _ => false,
    }
}

/// The key encoding is order-preserving: data keys sort before index keys and
/// by node key; index keys of one kind sort by id, then by column bytes (when
/// they differ inside both), then by entity.
pub proof fn lemma_table_key_order(a: TableKeyView, b: TableKeyView)
    requires
        table_key_lt(a, b),
    ensures
        sorts_before(table_key_bytes(a), table_key_bytes(b)),
{
    lemma_pow256_values();
    let ea = table_key_bytes(a);
    let eb = table_key_bytes(b);
    match (a, b) {
        (TableKeyView::Data(x), TableKeyView::Data(y)) => {
            crate::ordered::lemma_unsigned_order(x as nat, y as nat, 16);
            lemma_sorts_before_prepend(seq![DATA_TAG], key_bytes(x), key_bytes(y));
        },
        (TableKeyView::Data(_), TableKeyView::Index { .. }) => {
            assert(ea.take(0) =~= eb.take(0));
            assert(diverge_at(ea, eb, 0));
        },
        (
            TableKeyView::Index { id: ia, cols: ca, entity: xa },
            TableKeyView::Index { id: ib, cols: cb, entity: xb },
        ) => {
            let t = ea[0];
            let tail_a = match xa {
                Some(e) => key_bytes(e),
                None => Seq::empty(),
            };
            let tail_b = match xb {
                Some(e) => key_bytes(e),
                None => Seq::empty(),
            };
            assert(ea =~= seq![t] + (be_bytes(ia as nat, 4) + (ca + tail_a)));
            assert(eb =~= seq![t] + (be_bytes(ib as nat, 4) + (cb + tail_b)));
            if ia < ib {
                crate::ordered::lemma_unsigned_order(ia as nat, ib as nat, 4);
                lemma_sorts_before_extend(
                    be_bytes(ia as nat, 4),
                    be_bytes(ib as nat, 4),
                    ca + tail_a,
                    cb + tail_b,
                );
            } else {
                if sorts_before(ca, cb) {
                    lemma_sorts_before_extend(ca, cb, tail_a, tail_b);
                } else {
                    match (xa, xb) {
                        (Some(x), Some(y)) => {
                            crate::ordered::lemma_unsigned_order(x as nat, y as nat, 16);
                            lemma_sorts_before_prepend(ca, key_bytes(x), key_bytes(y));
                        },
                        _ => {},
                    }
                }
                lemma_sorts_before_prepend(be_bytes(ia as nat, 4), ca + tail_a, cb + tail_b);
            }
            lemma_sorts_before_prepend(
                seq![t],
                be_bytes(ia as nat, 4) + (ca + tail_a),
                be_bytes(ib as nat, 4) + (cb + tail_b),
            );
        },
        _ => {},
    }
}

} // verus!
