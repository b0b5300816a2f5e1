//! Write-time index maintenance: the entry an index holds for an entity, the
//! unique-index collision rule, and the contiguous key block an index's
//! entries occupy.
//!
//! A mutation re-indexes the entities it could have affected: their current
//! entries are deleted before the change and the entries the new state implies
//! are inserted after it. An entry's key is a pure function of the entity's
//! column values and key, so this covers creation, replacement, column edits
//! and removal without diffing.

use crate::bytes::{be_bytes, lemma_be_bytes_len, lemma_be_value_of_bytes, lemma_pow256_values, lex_lt};
use crate::engine::table_key::{table_key_bytes, TableKey, TableKeyView, INDEX_DUP_TAG, INDEX_UNIQUE_TAG};
use crate::engine::table_value::{TableValue, TableValueView};
use crate::error::{SdbError, SdbResult};
use crate::index::definitions::index::{columns_key, min_len, IndexDef};
use crate::index::id::IndexId;
use crate::index::registry::IndexEntry;
use crate::key::{key_bytes, Skey};
use crate::scalar::Scalar;
use crate::text::push_str;
use vstd::prelude::*;

verus! {

/// The table key of the index entry for `entity` with indexed column bytes
/// `cols`: a non-unique index keeps the entity in the key, after the columns,
/// as a tie-breaker; a unique index keys by the columns alone.
pub open spec fn entry_key(id: u32, unique: bool, cols: Seq<u8>, entity: u128) -> TableKeyView {
    TableKeyView::Index { id, cols, entity: if unique { None } else { Some(entity) } }
}

/// The value of the index entry for `entity`: a unique index stores the
/// entity there, a non-unique one nothing.
pub open spec fn entry_value(unique: bool, entity: u128) -> TableValueView {
    if unique {
        TableValueView::Skey(entity)
    } else {
        TableValueView::Unit
    }
}

/// The key and value of the index entry for `entity`, whose indexed column
/// values are `values` (one per column, in column order; `Null` for a column
/// that is absent or not a leaf).
pub fn index_key(id: IndexId, def: &IndexDef, entity: Skey, values: &[Scalar]) -> (r: (TableKey, TableValue))
    ensures
        r.0@ == entry_key(
            id.0,
            def@.unique,
            columns_key(
                values@.map_values(|v: Scalar| v@),
                def@.columns,
                min_len(values@.len(), def@.columns.len()),
            ),
            entity@,
        ),
        r.1@ == entry_value(def@.unique, entity@),
{
    let cols = def.encode_columns(values);
    if def.unique() {
        (TableKey::Index { id, cols, entity: None }, TableValue::Skey(entity))
    } else {
        (TableKey::Index { id, cols, entity: Some(entity) }, TableValue::Unit)
    }
}

/// Whether writing `value` under a unique index's key collides with what is
/// stored there: another entity already holds the key.
pub open spec fn unique_collision(existing: Option<TableValueView>, value: TableValueView) -> bool {
    &&& value matches TableValueView::Skey(entity)
    &&& existing matches Some(TableValueView::Skey(other))
    &&& other != entity
}

/// Checks a unique index entry before it is written: when the key already
/// maps to another entity (`existing`), the write is a
/// [`UniqueViolation`](SdbError::UniqueViolation) of the index named `index`.
/// Re-writing an entity's own entry is fine.
pub fn guard_unique(existing: Option<&TableValue>, value: &TableValue, index: &str) -> (r: SdbResult<()>)
    ensures
        r is Err <==> unique_collision(
            match existing {
                Some(v) => Some(v@),
                None => None,
            },
            value@,
        ),
        r matches Err(e) ==> e matches SdbError::UniqueViolation { index: name } && name@ == index@,
{
    let entity = match value {
        TableValue::Skey(entity) => *entity,
        _ => {
            return Ok(());
        },
    };
    match existing {
        Some(TableValue::Skey(other)) => {
            if other.as_u128() != entity.as_u128() {
                let mut name = String::new();
                push_str(&mut name, index);
                return Err(SdbError::UniqueViolation { index: name });
            }
            Ok(())
        },
        _ => Ok(()),
    }
}

/// The first key an index's entries can take: its tag and id, then (for a
/// non-unique index) the smallest entity key.
pub open spec fn block_start(id: u32, unique: bool) -> TableKeyView {
    entry_key(id, unique, Seq::empty(), 0)
}

/// `k` is an entry of the index with this id and uniqueness.
pub open spec fn in_block(k: TableKeyView, id: u32, unique: bool) -> bool {
    k matches TableKeyView::Index { id: i, entity, .. } && i == id && (entity is None) == unique
}

/// Where the scan over an index's entries starts, as its removal does.
pub fn index_block_start(entry: &IndexEntry) -> (k: TableKey)
    ensures
        k@ == block_start(entry@.id, entry@.def.unique),
{
    let unique = entry.def().unique();
    let entity = if unique {
        None
    } else {
        Some(Skey::from_u128(0))
    };
    let k = TableKey::Index { id: entry.id(), cols: Vec::new(), entity };
    assert(k@ =~= block_start(entry@.id, entry@.def.unique));
    k
}

/// Whether the scan over index `id`'s entries goes on at `key`: it stops at
/// the first key that is not an entry of that index.
pub fn continues_block(key: &TableKey, id: IndexId) -> (b: bool)
    ensures
        b == (key@ matches TableKeyView::Index { id: i, .. } && i == id.0),
{
    match key {
        TableKey::Index { id: entry_id, .. } => entry_id.0 == id.0,
        _ => false,
    }
}

/// Strings that sort between two sharing a prefix, and are at least as long
/// as it, share it too.
proof fn lemma_between_shares_prefix(p: Seq<u8>, a: Seq<u8>, b: Seq<u8>, c: Seq<u8>)
    requires
        p.len() <= a.len(),
        p.len() <= c.len(),
        p.len() <= b.len(),
        a.take(p.len() as int) == p,
        c.take(p.len() as int) == p,
        !lex_lt(b, a),
        !lex_lt(c, b),
    ensures
        b.take(p.len() as int) == p,
    decreases p.len(),
{
    if p.len() > 0 {
        assert(a[0] == p[0]);
        assert(c[0] == p[0]);
        if b[0] == p[0] {
            let q = p.drop_first();
            assert(a.drop_first().take(q.len() as int) =~= q);
            assert(c.drop_first().take(q.len() as int) =~= q);
            lemma_between_shares_prefix(q, a.drop_first(), b.drop_first(), c.drop_first());
            assert(b.take(p.len() as int) =~= seq![b[0]] + b.drop_first().take(q.len() as int));
            assert(p =~= seq![p[0]] + q);
        }
    } else {
        assert(b.take(0) =~= p);
    }
}

/// The bytes of zero are all zero.
proof fn lemma_zero_bytes(n: nat)
    ensures
        be_bytes(0, n).len() == n,
        forall|i: int| 0 <= i < n ==> be_bytes(0, n)[i] == 0,
    decreases n,
{
    if n > 0 {
        lemma_zero_bytes((n - 1) as nat);
    }
}

/// A string at least as long as `z`, all of whose bytes are zero, does not
/// sort before it.
proof fn lemma_zeros_least(z: Seq<u8>, s: Seq<u8>)
    requires
        forall|i: int| 0 <= i < z.len() ==> z[i] == 0,
        s.len() >= z.len(),
    ensures
        !lex_lt(s, z),
    decreases z.len(),
{
    if z.len() > 0 {
        if s[0] == z[0] {
            lemma_zeros_least(z.drop_first(), s.drop_first());
        }
    }
}

/// A string does not sort before one of its prefixes.
proof fn lemma_prefix_least(p: Seq<u8>, s: Seq<u8>)
    requires
        p.len() <= s.len(),
        s.take(p.len() as int) == p,
    ensures
        !lex_lt(s, p),
    decreases p.len(),
{
    if p.len() > 0 {
        assert(s[0] == p[0]);
        assert(s.drop_first().take(p.len() - 1) =~= p.drop_first());
        lemma_prefix_least(p.drop_first(), s.drop_first());
    }
}

/// Every entry of an index sorts at or after the index's block start, so a
/// forward scan from there reaches all of them.
pub proof fn lemma_block_start_first(k: TableKeyView, id: u32, unique: bool)
    requires
        in_block(k, id, unique),
    ensures
        !lex_lt(table_key_bytes(k), table_key_bytes(block_start(id, unique))),
{
    lemma_pow256_values();
    lemma_be_bytes_len(id as nat, 4);
    let kb = table_key_bytes(k);
    let head = if unique {
        seq![INDEX_UNIQUE_TAG] + be_bytes(id as nat, 4)
    } else {
        seq![INDEX_DUP_TAG] + be_bytes(id as nat, 4)
    };
    if let TableKeyView::Index { cols, entity, .. } = k {
        if unique {
            assert(table_key_bytes(block_start(id, unique)) =~= head);
            assert(kb =~= head + cols);
            assert(kb.take(5) =~= head);
            lemma_prefix_least(head, kb);
        } else {
            let e = entity->0;
            lemma_be_bytes_len(e as nat, 16);
            lemma_be_bytes_len(0, 16);
            let zeros = key_bytes(0);
            lemma_zero_bytes(16);
            let start = table_key_bytes(block_start(id, unique));
            assert(start =~= head + zeros);
            assert(kb =~= head + (cols + key_bytes(e)));
            lemma_zeros_least(zeros, cols + key_bytes(e));
            lemma_after_common_head(head, zeros, cols + key_bytes(e));
        }
    }
}

/// Appending to a common head keeps the order of the tails.
proof fn lemma_after_common_head(h: Seq<u8>, x: Seq<u8>, y: Seq<u8>)
    requires
        !lex_lt(y, x),
    ensures
        !lex_lt(h + y, h + x),
    decreases h.len(),
{
    if h.len() > 0 {
        assert((h + y).drop_first() =~= h.drop_first() + y);
        assert((h + x).drop_first() =~= h.drop_first() + x);
        lemma_after_common_head(h.drop_first(), x, y);
    } else {
        assert(h + y =~= y);
        assert(h + x =~= x);
    }
}

/// An index's entries form one contiguous run in key order: any key that
/// sorts between two of its entries is an entry of the index too. So the scan
/// from the block start that stops at the first key of another index covers
/// exactly this index's entries.
pub proof fn lemma_block_contiguous(a: TableKeyView, b: TableKeyView, c: TableKeyView, id: u32, unique: bool)
    requires
        in_block(a, id, unique),
        in_block(c, id, unique),
        !lex_lt(table_key_bytes(b), table_key_bytes(a)),
        !lex_lt(table_key_bytes(c), table_key_bytes(b)),
    ensures
        in_block(b, id, unique),
{
    lemma_pow256_values();
    lemma_be_bytes_len(id as nat, 4);
    let tag = if unique {
        INDEX_UNIQUE_TAG
    } else {
        INDEX_DUP_TAG
    };
    let head = seq![tag] + be_bytes(id as nat, 4);
    let ab = table_key_bytes(a);
    let bb = table_key_bytes(b);
    let cb = table_key_bytes(c);
    if let TableKeyView::Index { cols, entity, .. } = a {
        if unique {
            assert(ab =~= head + cols);
        } else {
            lemma_be_bytes_len(entity->0 as nat, 16);
            assert(ab =~= head + (cols + key_bytes(entity->0)));
        }
        assert(ab.take(5) =~= head);
    }
    if let TableKeyView::Index { cols, entity, .. } = c {
        if unique {
            assert(cb =~= head + cols);
        } else {
            lemma_be_bytes_len(entity->0 as nat, 16);
            assert(cb =~= head + (cols + key_bytes(entity->0)));
        }
        assert(cb.take(5) =~= head);
    }
    match b {
        TableKeyView::Data(k) => {
            lemma_be_bytes_len(k as nat, 16);
        },
        TableKeyView::Index { id: bid, cols, entity } => {
            lemma_be_bytes_len(bid as nat, 4);
            match entity {
                Some(e) => {
                    lemma_be_bytes_len(e as nat, 16);
                },
                None => {},
            }
        },
    }
    assert(bb.len() >= 5);
    lemma_between_shares_prefix(head, ab, bb, cb);
    assert(bb[0] == tag);
    if let TableKeyView::Index { id: bid, .. } = b {
        assert(bb.subrange(1, 5) =~= be_bytes(bid as nat, 4));
        assert(head.subrange(1, 5) =~= be_bytes(id as nat, 4));
        assert(bb.subrange(1, 5) =~= head.subrange(1, 5));
        lemma_be_value_of_bytes(bid as nat, 4);
        lemma_be_value_of_bytes(id as nat, 4);
    }
}

/// The bytes a prefix scan over an index's entries starts from: the index's
/// tag and id, then the leading column bytes sought.
pub open spec fn prefix_start(id: u32, unique: bool, prefix: Seq<u8>) -> Seq<u8> {
    seq![if unique { INDEX_UNIQUE_TAG } else { INDEX_DUP_TAG }] + be_bytes(id as nat, 4) + prefix
}

/// A proper prefix sorts before the string it starts.
proof fn lemma_proper_prefix_first(p: Seq<u8>, s: Seq<u8>)
    requires
        p.len() < s.len(),
        s.take(p.len() as int) == p,
    ensures
        lex_lt(p, s),
    decreases p.len(),
{
    if p.len() > 0 {
        assert(s[0] == p[0]);
        assert(s.drop_first().take(p.len() - 1) =~= p.drop_first());
        lemma_proper_prefix_first(p.drop_first(), s.drop_first());
    }
}

/// Index keys carry their column bytes with no length prefix, so a prefix
/// scan works: every entry whose columns start with `prefix` sorts at or after
/// the scan's start, and (with no entity after the columns, as in a unique
/// index) a shorter column run sorts before a longer one extending it.
pub proof fn lemma_column_prefix_scan(id: u32, unique: bool, prefix: Seq<u8>, cols: Seq<u8>, entity: u128)
    requires
        prefix.len() <= cols.len(),
        cols.take(prefix.len() as int) == prefix,
    ensures
        !lex_lt(table_key_bytes(entry_key(id, unique, cols, entity)), prefix_start(id, unique, prefix)),
        unique && prefix.len() < cols.len() ==> lex_lt(
            table_key_bytes(entry_key(id, unique, prefix, entity)),
            table_key_bytes(entry_key(id, unique, cols, entity)),
        ),
{
    lemma_pow256_values();
    lemma_be_bytes_len(id as nat, 4);
    let start = prefix_start(id, unique, prefix);
    let kb = table_key_bytes(entry_key(id, unique, cols, entity));
    let head = seq![if unique { INDEX_UNIQUE_TAG } else { INDEX_DUP_TAG }] + be_bytes(id as nat, 4);
    if unique {
        assert(kb =~= head + cols);
    } else {
        lemma_be_bytes_len(entity as nat, 16);
        assert(kb =~= head + cols + key_bytes(entity));
    }
    assert(kb.take(start.len() as int) =~= start);
    lemma_prefix_least(start, kb);
    if unique && prefix.len() < cols.len() {
        let short = table_key_bytes(entry_key(id, unique, prefix, entity));
        assert(short =~= start);
        lemma_proper_prefix_first(short, kb);
    }
}

} // verus!
