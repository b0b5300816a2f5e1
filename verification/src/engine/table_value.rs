//! The composite value type stored in a StratoDB data table.
//!
//! A [`TableValue`] is the payload an engine entry maps to: a node (for `Data`
//! keys), a referenced primary key (the entity, for unique index entries), or
//! nothing (for non-unique index entries, whose entity lives in the key).

use crate::bytes::{be_value, lemma_be_bytes_len, lemma_pow256_values};
use crate::codec::{length_prefix, push_be, put_bytes, put_u32, Reader};
use crate::engine::node::{
    kind_of_tag, kind_tag, Node, NodeKind, NodeView, LEAF_TAG, LIST_TAG, OBJECT_TAG, PACKED_TAG,
};
use crate::error::{corrupt, SdbResult};
use crate::key::{key_bytes, lemma_key_bytes_roundtrip, Skey};
use crate::scalar::{
    lemma_scalar_roundtrip, scalar_bytes, scalar_decode_panics, scalar_parse, scalar_well_formed,
    Scalar, ScalarView,
};
use vstd::prelude::*;

verus! {

pub const NODE_VALUE_TAG: u8 = 0;
pub const SKEY_VALUE_TAG: u8 = 1;
pub const UNIT_VALUE_TAG: u8 = 2;

/// The value of an entry in a StratoDB data table.
#[derive(Clone, Debug)]
pub enum TableValue {
    /// A stored node (for `Data` keys).
    Node(Node),
    /// A referenced primary key (the entity, for unique index entries).
    Skey(Skey),
    /// No payload (for non-unique index entries).
    Unit,
}

/// The mathematical form of a [`TableValue`].
pub enum TableValueView {
    Node(NodeView),
    Skey(u128),
    Unit,
}

impl View for TableValue {
    type V = TableValueView;

    open spec fn view(&self) -> TableValueView {
        match self {
            TableValue::Node(n) => TableValueView::Node(n@),
            TableValue::Skey(k) => TableValueView::Skey(k@),
            TableValue::Unit => TableValueView::Unit,
        }
    }
}

/// The 16-byte forms of a run of keys, concatenated.
pub open spec fn keys_bytes(keys: Seq<u128>) -> Seq<u8>
    decreases keys.len(),
{
    if keys.len() == 0 {
        Seq::empty()
    } else {
        keys_bytes(keys.drop_last()) + key_bytes(keys.last())
    }
}

/// The engine bytes of a node.
pub open spec fn node_bytes(n: NodeView) -> Seq<u8> {
    match n {
        NodeView::Object => seq![OBJECT_TAG],
        NodeView::List(keys) => seq![LIST_TAG] + length_prefix(keys.len()) + keys_bytes(keys),
        NodeView::Leaf(s) => seq![LEAF_TAG] + scalar_bytes(s),
        NodeView::Packed(k, blob) => seq![PACKED_TAG, kind_tag(k)] + length_prefix(blob.len())
            + blob,
    }
}

/// The engine bytes of a table value.
pub open spec fn value_bytes(v: TableValueView) -> Seq<u8> {
    match v {
        TableValueView::Node(n) => seq![NODE_VALUE_TAG] + node_bytes(n),
        TableValueView::Skey(k) => seq![SKEY_VALUE_TAG] + key_bytes(k),
        TableValueView::Unit => seq![UNIT_VALUE_TAG],
    }
}

/// The `i`-th 16-byte key of a run starting at the front of `q`.
pub open spec fn key_at(q: Seq<u8>, i: int) -> u128 {
    be_value(q.subrange(16 * i, 16 * i + 16)) as u128
}

/// The node at the front of `r`, or `None` when malformed. Bytes after the node
/// are ignored.
pub open spec fn node_parse(r: Seq<u8>) -> Option<NodeView> {
    if r.len() == 0 {
        None
    } else {
        let q = r.skip(1);
        if r[0] == OBJECT_TAG {
            Some(NodeView::Object)
        } else if r[0] == PACKED_TAG {
            if q.len() >= 1 && kind_of_tag(q[0]) is Some && q.len() >= 5 && 5 + be_value(
                q.subrange(1, 5),
            ) <= q.len() {
                Some(
                    NodeView::Packed(
                        kind_of_tag(q[0])->0,
                        q.subrange(5, 5 + be_value(q.subrange(1, 5)) as int),
                    ),
                )
            } else {
                None
            }
        } else if r[0] == LIST_TAG {
            if q.len() >= 4 && 4 + 16 * be_value(q.take(4)) <= q.len() {
                Some(
                    NodeView::List(
                        Seq::new(be_value(q.take(4)), |i: int| key_at(q.skip(4), i)),
                    ),
                )
            } else {
                None
            }
        } else if r[0] == LEAF_TAG {
            match scalar_parse(q) {
                Some((s, _)) => Some(NodeView::Leaf(s)),
                None => None,
            }
        } else {
            None
        }
    }
}

/// The table value engine bytes spell, or `None` when they are malformed.
pub open spec fn value_parse(b: Seq<u8>) -> Option<TableValueView> {
    if b.len() == 0 {
        None
    } else if b[0] == NODE_VALUE_TAG {
        match node_parse(b.skip(1)) {
            Some(n) => Some(TableValueView::Node(n)),
            None => None,
        }
    } else if b[0] == SKEY_VALUE_TAG {
        if b.len() >= 17 {
            Some(TableValueView::Skey(be_value(b.subrange(1, 17)) as u128))
        } else {
            None
        }
    } else if b[0] == UNIT_VALUE_TAG {
        Some(TableValueView::Unit)
    } else {
        None
    }
}

/// Decoding `b` would reach a leaf scalar whose duration panics `chrono`.
pub open spec fn value_decode_panics(b: Seq<u8>) -> bool {
    &&& b.len() >= 2
    &&& b[0] == NODE_VALUE_TAG
    &&& b[1] == LEAF_TAG
    &&& scalar_decode_panics(b.skip(2))
}

/// A value every part of which the format can carry.
pub open spec fn value_well_formed(v: TableValueView) -> bool {
    match v {
        TableValueView::Node(NodeView::List(keys)) => keys.len() < 0x1_0000_0000,
        TableValueView::Node(NodeView::Leaf(s)) => scalar_well_formed(s),
        TableValueView::Node(NodeView::Packed(_, blob)) => blob.len() < 0x1_0000_0000,
        _ => true,
    }
}

impl TableValue {
    /// A new value with the same content.
    pub fn duplicate(&self) -> (r: TableValue)
        ensures
            r@ == self@,
    {
        match self {
            TableValue::Node(n) => TableValue::Node(n.duplicate()),
            TableValue::Skey(k) => TableValue::Skey(Skey::from_u128(k.as_u128())),
            TableValue::Unit => TableValue::Unit,
        }
    }

    /// Serializes this value to engine bytes.
    pub fn encode(&self, buf: &mut Vec<u8>)
        ensures
            final(buf)@ == old(buf)@ + value_bytes(self@),
    {
        match self {
            TableValue::Node(node) => {
                buf.push(NODE_VALUE_TAG);
                encode_node(node, buf);
            },
            TableValue::Skey(skey) => {
                buf.push(SKEY_VALUE_TAG);
                push_be(buf, skey.as_u128(), 16);
            },
            TableValue::Unit => {
                buf.push(UNIT_VALUE_TAG);
            },
        }
        assert(final(buf)@ =~= old(buf)@ + value_bytes(self@));
    }

    /// Decodes engine bytes written by [`TableValue::encode`].
    pub fn decode(data: &[u8]) -> (r: SdbResult<TableValue>)
        requires
            !value_decode_panics(data@),
        ensures
            match value_parse(data@) {
                Some(v) => r matches Ok(x) && x@ == v,
                None => r matches Err(e) && e is Corrupt,
            },
    {
        let mut r = Reader::new(data);
        let tag = r.u8()?;
        if tag == NODE_VALUE_TAG {
            proof {
                if data@.len() >= 2 {
                    assert(r@[0] == data@[1]);
                    assert(r@.skip(1) =~= data@.skip(2));
                }
            }
            let node = decode_node(&mut r)?;
            Ok(TableValue::Node(node))
        } else if tag == SKEY_VALUE_TAG {
            let v = r.be_uint(16)?;
            assert(data@.skip(1).take(16) =~= data@.subrange(1, 17));
            Ok(TableValue::Skey(Skey::from_u128(v)))
        } else if tag == UNIT_VALUE_TAG {
            Ok(TableValue::Unit)
        } else {
            Err(corrupt("unknown table value tag"))
        }
    }
}

/// Serializes a node.
fn encode_node(node: &Node, buf: &mut Vec<u8>)
    ensures
        final(buf)@ == old(buf)@ + node_bytes(node@),
{
    match node {
        Node::Object => {
            buf.push(OBJECT_TAG);
        },
        Node::List(items) => {
            buf.push(LIST_TAG);
            let n = items.len();
            put_u32(buf, ((n as u64) % 0x1_0000_0000) as u32);
            let ghost start = buf@;
            let mut i: usize = 0;
            while i < items.len()
                invariant
                    i <= items@.len(),
                    buf@ == start + keys_bytes(items@.map_values(|k: Skey| k@).take(i as int)),
                decreases items@.len() - i,
            {
                push_be(buf, items[i].as_u128(), 16);
                proof {
                    let ks = items@.map_values(|k: Skey| k@);
                    assert(ks.take(i + 1).drop_last() =~= ks.take(i as int));
                }
                i = i + 1;
            }
            assert(items@.map_values(|k: Skey| k@).take(i as int) =~= items@.map_values(
                |k: Skey| k@,
            ));
        },
        Node::Leaf(scalar) => {
            buf.push(LEAF_TAG);
            scalar.encode(buf);
        },
        Node::Packed { root, blob } => {
            buf.push(PACKED_TAG);
            buf.push(root.as_tag());
            put_bytes(buf, blob.as_slice());
        },
    }
    assert(final(buf)@ =~= old(buf)@ + node_bytes(node@));
}

/// Decodes a node from the front of `r`.
fn decode_node(r: &mut Reader<'_>) -> (res: SdbResult<Node>)
    requires
        !(old(r)@.len() >= 1 && old(r)@[0] == LEAF_TAG && scalar_decode_panics(old(r)@.skip(1))),
    ensures
        match node_parse(old(r)@) {
            Some(n) => res matches Ok(x) && x@ == n,
            None => res matches Err(e) && e is Corrupt,
        },
{
    let ghost b = r@;
    let tag = r.u8()?;
    let ghost q = r@;
    if tag == OBJECT_TAG {
        Ok(Node::Object)
    } else if tag == PACKED_TAG {
        let kt = r.u8()?;
        let root = NodeKind::from_tag(kt)?;
        proof {
            assert(r@ =~= q.skip(1));
            if q.len() >= 5 {
                assert(q.skip(1).take(4) =~= q.subrange(1, 5));
            }
        }
        let blob = r.bytes()?;
        let mut owned: Vec<u8> = Vec::new();
        crate::codec::append_bytes(&mut owned, blob);
        proof {
            assert(q.skip(1).take(4) =~= q.subrange(1, 5));
            let n = be_value(q.subrange(1, 5)) as int;
            assert(owned@ =~= q.subrange(5, 5 + n));
        }
        Ok(Node::Packed { root, blob: owned })
    } else if tag == LIST_TAG {
        let count = r.u32()?;
        let ghost keys_start = r@;
        let mut items: Vec<Skey> = Vec::new();
        let mut i: u32 = 0;
        while i < count
            invariant
                i <= count,
                b == old(r)@,
                b.len() >= 1,
                b[0] == LIST_TAG,
                q == b.skip(1),
                q.len() >= 4,
                keys_start == q.skip(4),
                count as nat == be_value(q.take(4)),
                16 * i <= keys_start.len(),
                r@ == keys_start.skip(16 * i),
                items@.len() == i,
                forall|j: int| 0 <= j < i ==> #[trigger] items@[j]@ == key_at(keys_start, j),
            decreases count - i,
        {
            let ghost before = r@;
            assert(before.len() == keys_start.len() - 16 * i);
            let v = match r.be_uint(16) {
                Ok(v) => v,
                Err(e) => {
                    assert(keys_start.len() < 16 * count);
                    assert(!(4 + 16 * be_value(q.take(4)) <= q.len()));
                    return Err(e);
                },
            };
            proof {
                assert(before.take(16) =~= keys_start.subrange(16 * i, 16 * i + 16));
                assert(r@ =~= keys_start.skip(16 * (i + 1)));
            }
            items.push(Skey::from_u128(v));
            i = i + 1;
        }
        let ghost keys = Seq::new(count as nat, |j: int| key_at(keys_start, j));
        assert(items@.map_values(|k: Skey| k@) =~= keys);
        proof {
            if !(4 + 16 * be_value(q.take(4)) <= q.len()) {
                // The loop read every key, so the bytes were there.
                assert(false);
            }
        }
        Ok(Node::List(items))
    } else if tag == LEAF_TAG {
        let scalar = Scalar::decode(r)?;
        Ok(Node::Leaf(scalar))
    } else {
        Err(corrupt("unknown node tag"))
    }
}


/// A run of keys takes sixteen bytes per key, each key at its own offset.
proof fn lemma_keys_bytes(keys: Seq<u128>)
    ensures
        keys_bytes(keys).len() == 16 * keys.len(),
        forall|i: int|
            0 <= i < keys.len() ==> #[trigger] keys_bytes(keys).subrange(16 * i, 16 * i + 16)
                == key_bytes(keys[i]),
    decreases keys.len(),
{
    if keys.len() > 0 {
        let init = keys.drop_last();
        lemma_keys_bytes(init);
        lemma_key_bytes_roundtrip(keys.last());
        let kb = keys_bytes(keys);
        assert forall|i: int| 0 <= i < keys.len() implies #[trigger] kb.subrange(
            16 * i,
            16 * i + 16,
        ) == key_bytes(keys[i]) by {
            if i < keys.len() - 1 {
                assert(kb.subrange(16 * i, 16 * i + 16) =~= keys_bytes(init).subrange(
                    16 * i,
                    16 * i + 16,
                ));
                assert(init[i] == keys[i]);
            } else {
                assert(kb.subrange(16 * i, 16 * i + 16) =~= key_bytes(keys.last()));
            }
        }
    }
}

/// Reading back the bytes of a node gives the node, whatever follows it.
#[verifier::spinoff_prover]
#[verifier::rlimit(60)]
proof fn lemma_node_roundtrip(n: NodeView, rest: Seq<u8>)
    requires
        value_well_formed(TableValueView::Node(n)),
    ensures
        node_parse(node_bytes(n) + rest) == Some(n),
        (node_bytes(n) + rest)[0] == LEAF_TAG ==> !scalar_decode_panics(
            (node_bytes(n) + rest).skip(1),
        ),
{
    let b = node_bytes(n) + rest;
    lemma_pow256_values();
    match n {
        NodeView::Object => {
            assert(b[0] == OBJECT_TAG);
        },
        NodeView::List(keys) => {
            assert(b[0] == LIST_TAG);
            let q = b.skip(1);
            lemma_be_bytes_len(keys.len() % 0x1_0000_0000, 4);
            crate::bytes::lemma_be_value_of_bytes(keys.len() % 0x1_0000_0000, 4);
            lemma_keys_bytes(keys);
            assert(q =~= length_prefix(keys.len()) + keys_bytes(keys) + rest);
            assert(q.take(4) =~= length_prefix(keys.len()));
            assert(be_value(q.take(4)) == keys.len());
            let ks = q.skip(4);
            assert forall|i: int| 0 <= i < keys.len() implies key_at(ks, i) == keys[i] by {
                assert(ks.subrange(16 * i, 16 * i + 16) =~= keys_bytes(keys).subrange(
                    16 * i,
                    16 * i + 16,
                ));
                lemma_key_bytes_roundtrip(keys[i]);
            }
            assert(Seq::new(be_value(q.take(4)), |i: int| key_at(q.skip(4), i)) =~= keys);
        },
        NodeView::Leaf(s) => {
            assert(b[0] == LEAF_TAG);
            assert(b.skip(1) =~= scalar_bytes(s) + rest);
            lemma_scalar_roundtrip(s, rest);
        },
        NodeView::Packed(k, blob) => {
            assert(b[0] == PACKED_TAG);
            let q = b.skip(1);
            lemma_be_bytes_len(blob.len() % 0x1_0000_0000, 4);
            crate::bytes::lemma_be_value_of_bytes(blob.len() % 0x1_0000_0000, 4);
            assert(q[0] == kind_tag(k));
            assert(q.subrange(1, 5) =~= length_prefix(blob.len()));
            assert(q.subrange(5, 5 + blob.len() as int) =~= blob);
            assert(kind_of_tag(kind_tag(k)) == Some(k)) by {
                match k {
                    NodeKind::Object => {},
                    NodeKind::List => {},
                    NodeKind::Leaf => {},
                }
            }
        },
    }
}

/// Reading back the bytes of a well-formed table value gives the value, and
/// never reaches a duration that `chrono` would refuse.
pub proof fn lemma_value_roundtrip(v: TableValueView)
    requires
        value_well_formed(v),
    ensures
        value_parse(value_bytes(v)) == Some(v),
        !value_decode_panics(value_bytes(v)),
{
    let b = value_bytes(v);
    match v {
        TableValueView::Node(n) => {
            assert(b.skip(1) =~= node_bytes(n) + Seq::<u8>::empty());
            lemma_node_roundtrip(n, Seq::<u8>::empty());
            if b.len() >= 2 && b[1] == LEAF_TAG {
                assert(b.skip(2) =~= b.skip(1).skip(1));
            }
        },
        TableValueView::Skey(k) => {
            lemma_key_bytes_roundtrip(k);
            assert(b.subrange(1, 17) =~= key_bytes(k));
        },
        TableValueView::Unit => {},
    }
}

} // verus!
