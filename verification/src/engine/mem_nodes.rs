//! An in-memory node store, ordered exactly like the engine (by the encoded
//! [`TableKey`] bytes), holding one packed entity's subtree while it is built,
//! read back or edited; its blob form is what a packed node carries.

use crate::bytes::{
    be_bytes, be_value, bytes_eq, bytes_lt, lemma_be_bytes_len, lemma_be_value_of_bytes,
    lemma_lex_asym, lemma_lex_total, lemma_lex_transitive, lemma_pow256_values, lex_lt,
};
use crate::codec::{length_prefix, put_bytes, put_u32, Reader};
use crate::engine::node::{node_kind, Node, NodeKind, NodeView};
use crate::engine::table_key::{lemma_table_key_roundtrip, table_key_bytes, table_key_parse, TableKey, TableKeyView};
use crate::engine::table_value::{
    lemma_value_roundtrip, value_bytes, value_decode_panics, value_parse, value_well_formed,
    TableValue, TableValueView,
};
use crate::error::SdbResult;
use crate::key::Skey;
use vstd::prelude::*;

verus! {

/// A stored entry in plain values.
pub type EntryView = (TableKeyView, TableValueView);

/// The engine bytes of an entry's key.
pub open spec fn entry_key_bytes(e: EntryView) -> Seq<u8> {
    table_key_bytes(e.0)
}

/// Entries in strictly increasing key-byte order (so each key at most once).
pub open spec fn entries_sorted(s: Seq<EntryView>) -> bool {
    forall|i: int, j: int|
        0 <= i < j < s.len() ==> lex_lt(
            #[trigger] entry_key_bytes(s[i]),
            #[trigger] entry_key_bytes(s[j]),
        )
}

/// The value stored under `k`, if any: the entry at `k`'s place in the order,
/// when it has that key.
pub open spec fn entries_get(s: Seq<EntryView>, k: TableKeyView) -> Option<TableValueView> {
    let p = lower_bound(s, table_key_bytes(k)) as int;
    if p < s.len() && s[p].0 == k {
        Some(s[p].1)
    } else {
        None
    }
}

/// How many entries sort before key bytes `kb`: where `kb` belongs.
pub open spec fn lower_bound(s: Seq<EntryView>, kb: Seq<u8>) -> nat
    decreases s.len(),
{
    if s.len() == 0 {
        0
    } else if lex_lt(entry_key_bytes(s[0]), kb) {
        1 + lower_bound(s.drop_first(), kb)
    } else {
        0
    }
}

/// The entries once `(k, v)` is stored: it replaces the entry with key `k`, or
/// goes in at its place in the order.
pub open spec fn entries_put(s: Seq<EntryView>, k: TableKeyView, v: TableValueView) -> Seq<EntryView> {
    let p = lower_bound(s, table_key_bytes(k)) as int;
    if p < s.len() && s[p].0 == k {
        s.update(p, (k, v))
    } else {
        s.insert(p, (k, v))
    }
}

/// The entries without the one with key `k` (unchanged when there is none).
pub open spec fn entries_delete(s: Seq<EntryView>, k: TableKeyView) -> Seq<EntryView> {
    let p = lower_bound(s, table_key_bytes(k)) as int;
    if p < s.len() && s[p].0 == k {
        s.remove(p)
    } else {
        s
    }
}

/// The store built by putting each of `rs` in turn (a later key replaces an
/// earlier one).
pub open spec fn entries_build(rs: Seq<EntryView>) -> Seq<EntryView>
    decreases rs.len(),
{
    if rs.len() == 0 {
        Seq::empty()
    } else {
        let e = rs.last();
        entries_put(entries_build(rs.drop_last()), e.0, e.1)
    }
}

/// The record of one entry: the key's bytes and the value's bytes, each
/// length-prefixed.
pub open spec fn entry_record(e: EntryView) -> Seq<u8> {
    length_prefix(table_key_bytes(e.0).len()) + table_key_bytes(e.0) + length_prefix(
        value_bytes(e.1).len(),
    ) + value_bytes(e.1)
}

/// The records of a run of entries, in order.
pub open spec fn entries_record(s: Seq<EntryView>) -> Seq<u8>
    decreases s.len(),
{
    if s.len() == 0 {
        Seq::empty()
    } else {
        entry_record(s[0]) + entries_record(s.drop_first())
    }
}

/// The blob form of a store: the entry count (as a `u32`), then the records.
pub open spec fn blob_bytes(s: Seq<EntryView>) -> Seq<u8> {
    be_bytes(s.len() % 0x1_0000_0000, 4) + entries_record(s)
}

/// How reading records from a blob ends.
pub enum BlobOutcome {
    /// The records read, and the bytes they spanned.
    Done(Seq<EntryView>, int),
    /// The blob is truncated or malformed.
    Corrupt,
    /// A value holds a duration `chrono` cannot represent.
    Panics,
}

/// The length-prefixed byte run at the front of `r` and its size.
pub open spec fn run_parse(r: Seq<u8>) -> Option<(Seq<u8>, int)> {
    if r.len() >= 4 && 4 + be_value(r.take(4)) <= r.len() {
        let n = be_value(r.take(4)) as int;
        Some((r.subrange(4, 4 + n), 4 + n))
    } else {
        None
    }
}

/// Reading one record from the front of `r`.
#[verifier::opaque]
pub open spec fn record_parse(r: Seq<u8>) -> BlobOutcome {
    match run_parse(r) {
        None => BlobOutcome::Corrupt,
        Some((kb, a)) => match table_key_parse(kb) {
            None => BlobOutcome::Corrupt,
            Some(k) => match run_parse(r.skip(a)) {
                None => BlobOutcome::Corrupt,
                Some((vb, b)) => if value_decode_panics(vb) {
                    BlobOutcome::Panics
                } else {
                    match value_parse(vb) {
                        None => BlobOutcome::Corrupt,
                        Some(v) => BlobOutcome::Done(seq![(k, v)], a + b),
                    }
                },
            },
        },
    }
}

/// `o` with `pre` (spanning `k` bytes) in front of what it read.
pub open spec fn prepend_records(pre: Seq<EntryView>, k: int, o: BlobOutcome) -> BlobOutcome {
    match o {
        BlobOutcome::Done(s, m) => BlobOutcome::Done(pre + s, k + m),
        other => other,
    }
}

/// Reading `n` records from the front of `r`.
pub open spec fn records_parse(r: Seq<u8>, n: nat) -> BlobOutcome
    decreases n,
{
    if n == 0 {
        BlobOutcome::Done(Seq::empty(), 0)
    } else {
        match record_parse(r) {
            BlobOutcome::Done(e, k) => if 0 <= k <= r.len() {
                prepend_records(e, k, records_parse(r.skip(k), (n - 1) as nat))
            } else {
                BlobOutcome::Corrupt
            },
            other => other,
        }
    }
}

/// Reading the records of a blob.
pub open spec fn blob_parse(b: Seq<u8>) -> BlobOutcome {
    if b.len() < 4 {
        BlobOutcome::Corrupt
    } else {
        records_parse(b.skip(4), be_value(b.take(4)))
    }
}

/// An in-memory node store.
#[derive(Debug)]
pub struct MemNodes {
    entries: Vec<(TableKey, TableValue)>,
}

impl View for MemNodes {
    type V = Seq<EntryView>;

    closed spec fn view(&self) -> Seq<EntryView> {
        self.entries@.map_values(|e: (TableKey, TableValue)| (e.0@, e.1@))
    }
}

impl MemNodes {
    #[verifier::type_invariant]
    spec fn sorted(self) -> bool {
        entries_sorted(self@)
    }

    /// An empty store (its root node is made by the first write).
    pub fn new() -> (m: MemNodes)
        ensures
            m@ == Seq::<EntryView>::empty(),
    {
        let m = MemNodes { entries: Vec::new() };
        assert(m@ =~= Seq::<EntryView>::empty());
        m
    }

    /// The entries, in key order, strictly increasing.
    pub fn well_ordered(&self)
        ensures
            entries_sorted(self@),
    {
        proof {
            use_type_invariant(self);
        }
    }

    /// Where key bytes `kb` belong.
    fn position(&self, kb: &[u8]) -> (p: usize)
        ensures
            p == lower_bound(self@, kb@),
            p <= self@.len(),
    {
        proof {
            use_type_invariant(self);
        }
        let mut p: usize = 0;
        while p < self.entries.len() && bytes_lt(self.entries[p].0.encode().as_slice(), kb)
            invariant
                p <= self.entries@.len(),
                entries_sorted(self@),
                forall|i: int| 0 <= i < p ==> lex_lt(#[trigger] entry_key_bytes(self@[i]), kb@),
            decreases self.entries@.len() - p,
        {
            p = p + 1;
        }
        proof {
            lemma_lower_bound(self@, kb@, p as int);
        }
        p
    }

    /// The value stored under `key`.
    pub fn fetch(&self, key: &TableKey) -> (r: Option<TableValue>)
        ensures
            r matches Some(v) ==> entries_get(self@, key@) == Some(v@),
            r is None ==> entries_get(self@, key@) is None,
    {
        proof {
            use_type_invariant(self);
        }
        let kb = key.encode();
        let p = self.position(kb.as_slice());
        if p < self.entries.len() && bytes_eq(self.entries[p].0.encode().as_slice(), kb.as_slice()) {
            proof {
                lemma_table_key_roundtrip(self@[p as int].0);
                lemma_table_key_roundtrip(key@);
                lemma_get_at(self@, p as int);
            }
            Some(self.entries[p].1.duplicate())
        } else {
            proof {
                lemma_absent(self@, key@, p as int);
            }
            None
        }
    }

    /// Stores `value` under `key`, replacing what was there.
    pub fn put(&mut self, key: TableKey, value: TableValue)
        ensures
            final(self)@ == entries_put(old(self)@, key@, value@),
    {
        proof {
            use_type_invariant(&*self);
        }
        let kb = key.encode();
        let p = self.position(kb.as_slice());
        let found = p < self.entries.len() && bytes_eq(
            self.entries[p].0.encode().as_slice(),
            kb.as_slice(),
        );
        let ghost s = self@;
        proof {
            if p < s.len() {
                lemma_table_key_roundtrip(s[p as int].0);
                lemma_table_key_roundtrip(key@);
            }
            lemma_put_sorted(s, key@, value@);
        }
        let ghost kv = key@;
        let ghost vv = value@;
        let mut entries = Vec::new();
        std::mem::swap(&mut entries, &mut self.entries);
        if found {
            entries.set(p, (key, value));
        } else {
            entries.insert(p, (key, value));
        }
        proof {
            let m = entries@.map_values(|e: (TableKey, TableValue)| (e.0@, e.1@));
            assert(m =~= entries_put(s, kv, vv));
        }
        self.entries = entries;
    }

    /// Removes the entry with key `key`, if there is one.
    pub fn delete(&mut self, key: &TableKey)
        ensures
            final(self)@ == entries_delete(old(self)@, key@),
    {
        proof {
            use_type_invariant(&*self);
        }
        let kb = key.encode();
        let p = self.position(kb.as_slice());
        if p < self.entries.len() && bytes_eq(self.entries[p].0.encode().as_slice(), kb.as_slice()) {
            let ghost s = self@;
            proof {
                lemma_table_key_roundtrip(s[p as int].0);
                lemma_table_key_roundtrip(key@);
                lemma_delete_sorted(s, p as int);
            }
            let mut entries = Vec::new();
            std::mem::swap(&mut entries, &mut self.entries);
            entries.remove(p);
            proof {
                let m = entries@.map_values(|e: (TableKey, TableValue)| (e.0@, e.1@));
                assert(m =~= s.remove(p as int));
            }
            self.entries = entries;
        } else {
            proof {
                if p < self@.len() {
                    lemma_table_key_roundtrip(self@[p as int].0);
                    lemma_table_key_roundtrip(key@);
                }
            }
        }
    }

    /// The entries whose key is at or after `lower`, in key order.
    pub fn scan_from(&self, lower: &TableKey) -> (r: Vec<(TableKey, TableValue)>)
        ensures
            r@.map_values(|e: (TableKey, TableValue)| (e.0@, e.1@)) == self@.skip(
                lower_bound(self@, table_key_bytes(lower@)) as int,
            ),
    {
        let kb = lower.encode();
        let p = self.position(kb.as_slice());
        let mut out: Vec<(TableKey, TableValue)> = Vec::new();
        let mut i: usize = p;
        while i < self.entries.len()
            invariant
                p <= i <= self.entries@.len(),
                p == lower_bound(self@, table_key_bytes(lower@)),
                out@.map_values(|e: (TableKey, TableValue)| (e.0@, e.1@)) == self@.subrange(
                    p as int,
                    i as int,
                ),
            decreases self.entries@.len() - i,
        {
            let k = self.entries[i].0.duplicate();
            let v = self.entries[i].1.duplicate();
            let ghost pre = out@;
            assert(self@[i as int] == (k@, v@));
            out.push((k, v));
            assert(out@.map_values(|e: (TableKey, TableValue)| (e.0@, e.1@)) =~= pre.map_values(
                |e: (TableKey, TableValue)| (e.0@, e.1@),
            ).push((k@, v@)));
            assert(out@.map_values(|e: (TableKey, TableValue)| (e.0@, e.1@)) =~= self@.subrange(
                p as int,
                i + 1,
            ));
            i = i + 1;
        }
        assert(self@.subrange(p as int, i as int) =~= self@.skip(p as int));
        out
    }

    /// The kind of the subtree root (the node keyed [`Skey::root`]); a store
    /// with no root node is an empty object.
    pub fn root_kind(&self) -> (k: NodeKind)
        ensures
            k == match entries_get(self@, TableKeyView::Data(0)) {
                Some(TableValueView::Node(n)) => node_kind(n),
                _ => NodeKind::Object,
            },
    {
        match self.fetch(&TableKey::Data(Skey::root())) {
            Some(TableValue::Node(node)) => node.kind(),
            _ => NodeKind::Object,
        }
    }

    /// The blob form of the store: the entry count as a `u32`, then each
    /// entry's key and value bytes, length-prefixed, in key order.
    pub fn to_blob(&self) -> (b: Vec<u8>)
        ensures
            b@ == blob_bytes(self@),
    {
        let mut buf: Vec<u8> = Vec::new();
        let n = self.entries.len();
        put_u32(&mut buf, ((n as u64) % 0x1_0000_0000) as u32);
        let ghost head = buf@;
        let mut i: usize = 0;
        while i < self.entries.len()
            invariant
                i <= self.entries@.len(),
                buf@ == head + entries_record(self@.take(i as int)),
            decreases self.entries@.len() - i,
        {
            let kb = self.entries[i].0.encode();
            put_bytes(&mut buf, kb.as_slice());
            let mut vb: Vec<u8> = Vec::new();
            self.entries[i].1.encode(&mut vb);
            put_bytes(&mut buf, vb.as_slice());
            proof {
                lemma_entries_record_push(self@, i as int);
                assert(vb@ =~= value_bytes(self@[i as int].1));
                assert(buf@ =~= head + entries_record(self@.take(i + 1)));
            }
            i = i + 1;
        }
        assert(self@.take(i as int) =~= self@);
        buf
    }

    /// Rebuilds a store from a blob written by [`MemNodes::to_blob`]; a later
    /// record with a key already seen replaces the earlier one.
    pub fn from_blob(blob: &[u8]) -> (r: SdbResult<MemNodes>)
        requires
            !(blob_parse(blob@) is Panics),
        ensures
            match blob_parse(blob@) {
                BlobOutcome::Done(rs, _) => r matches Ok(m) && m@ == entries_build(rs),
                _ => r matches Err(e) && e is Corrupt,
            },
    {
        let mut r = Reader::new(blob);
        let count = match r.u32() {
            Ok(c) => c,
            Err(e) => {
                return Err(e);
            },
        };
        let ghost rest = r@;
        let ghost mut used: int = 0;
        let ghost mut read: Seq<EntryView> = Seq::empty();
        let mut store = MemNodes::new();
        let mut i: u32 = 0;
        while i < count
            invariant
                i <= count,
                rest == blob@.skip(4),
                count as nat == be_value(blob@.take(4)),
                blob_parse(blob@) == records_parse(rest, count as nat),
                !(blob_parse(blob@) is Panics),
                blob@.len() >= 4,
                0 <= used <= rest.len(),
                r@ == rest.skip(used),
                store@ == entries_build(read),
                records_parse(rest, count as nat) == prepend_records(
                    read,
                    used,
                    records_parse(r@, (count - i) as nat),
                ),
            decreases count - i,
        {
            let ghost here = r@;
            proof {
                reveal(record_parse);
            }
            let kraw = r.bytes()?;
            let key = TableKey::decode(kraw)?;
            let ghost a = 4 + be_value(here.take(4)) as int;
            let vraw = r.bytes()?;
            proof {
                assert(kraw@ =~= here.subrange(4, a));
                assert(here.skip(a).take(4) =~= here.subrange(a, a + 4));
                let b = 4 + be_value(here.skip(a).take(4)) as int;
                assert(vraw@ =~= here.skip(a).subrange(4, b));
                reveal(record_parse);
                assert(run_parse(here) == Some((kraw@, a)));
                assert(run_parse(here.skip(a)) == Some((vraw@, b)));
                if value_decode_panics(vraw@) {
                    assert(record_parse(here) is Panics);
                    assert(records_parse(here, (count - i) as nat) is Panics);
                }
            }
            let value = TableValue::decode(vraw)?;
            proof {
                let b = 4 + be_value(here.skip(a).take(4)) as int;
                assert(vraw@ =~= here.skip(a).subrange(4, b));
                assert(r@ =~= here.skip(a + b));
                assert(r@ =~= rest.skip(used + a + b));
                lemma_prepend_records(read, used, (key@, value@), a + b, records_parse(r@, (count - i - 1) as nat));
                let old_read = read;
                read = read.push((key@, value@));
                used = used + a + b;
                assert(read.drop_last() =~= old_read);
            }
            store.put(key, value);
            i = i + 1;
        }
        proof {
            assert(read + Seq::<EntryView>::empty() =~= read);
        }
        Ok(store)
    }

    /// Packs this store into a [`Node::Packed`] carrying its root kind and blob.
    pub fn into_packed(self) -> (n: Node)
        ensures
            n@ == NodeView::Packed(
                match entries_get(self@, TableKeyView::Data(0)) {
                    Some(TableValueView::Node(v)) => node_kind(v),
                    _ => NodeKind::Object,
                },
                blob_bytes(self@),
            ),
    {
        let root = self.root_kind();
        let blob = self.to_blob();
        Node::Packed { root, blob }
    }

    /// The entries, in key order.
    pub fn into_entries(self) -> (v: Vec<(TableKey, TableValue)>)
        ensures
            v@.map_values(|e: (TableKey, TableValue)| (e.0@, e.1@)) == self@,
    {
        self.entries
    }
}

/// The scan that stops at the first entry not before `kb` finds `lower_bound`.
proof fn lemma_lower_bound(s: Seq<EntryView>, kb: Seq<u8>, p: int)
    requires
        0 <= p <= s.len(),
        forall|i: int| 0 <= i < p ==> lex_lt(#[trigger] entry_key_bytes(s[i]), kb),
        p < s.len() ==> !lex_lt(entry_key_bytes(s[p]), kb),
    ensures
        lower_bound(s, kb) == p,
    decreases p,
{
    if p > 0 {
        let t = s.drop_first();
        assert forall|i: int| 0 <= i < p - 1 implies lex_lt(#[trigger] entry_key_bytes(t[i]), kb) by {
            assert(t[i] == s[i + 1]);
        }
        if p - 1 < t.len() {
            assert(t[p - 1] == s[p]);
        }
        assert(lex_lt(entry_key_bytes(s[0]), kb));
        lemma_lower_bound(t, kb, p - 1);
    }
}

/// In sorted entries, the key at `p` is found by `entries_get`.
proof fn lemma_get_at(s: Seq<EntryView>, p: int)
    requires
        entries_sorted(s),
        0 <= p < s.len(),
    ensures
        lower_bound(s, entry_key_bytes(s[p])) == p,
        entries_get(s, s[p].0) == Some(s[p].1),
{
    let kb = entry_key_bytes(s[p]);
    assert forall|i: int| 0 <= i < p implies lex_lt(#[trigger] entry_key_bytes(s[i]), kb) by {}
    if lex_lt(kb, kb) {
        lemma_lex_asym(kb, kb);
    }
    lemma_lower_bound(s, kb, p);
}

/// A key whose bytes are not at its place is stored nowhere.
proof fn lemma_absent(s: Seq<EntryView>, k: TableKeyView, p: int)
    requires
        entries_sorted(s),
        p == lower_bound(s, table_key_bytes(k)),
        p < s.len() ==> s[p].0 != k,
    ensures
        entries_get(s, k) is None,
        forall|i: int| 0 <= i < s.len() ==> #[trigger] s[i].0 != k,
{
    let kb = table_key_bytes(k);
    lemma_lower_bound_facts(s, kb);
    assert forall|i: int| 0 <= i < s.len() implies #[trigger] s[i].0 != k by {
        if s[i].0 == k {
            if i < p {
                lemma_lex_asym(entry_key_bytes(s[i]), kb);
            } else if i > p {
                assert(lex_lt(entry_key_bytes(s[p]), entry_key_bytes(s[i])));
                lemma_lex_total(entry_key_bytes(s[p]), kb);
                if entry_key_bytes(s[p]) == kb {
                    lemma_table_key_roundtrip(s[p].0);
                    lemma_table_key_roundtrip(k);
                } else {
                    lemma_lex_transitive(kb, entry_key_bytes(s[p]), entry_key_bytes(s[i]));
                    lemma_lex_asym(kb, kb);
                }
            }
        }
    }
}

/// `lower_bound` is the scan's stopping place.
proof fn lemma_lower_bound_facts(s: Seq<EntryView>, kb: Seq<u8>)
    ensures
        lower_bound(s, kb) <= s.len(),
        forall|i: int| 0 <= i < lower_bound(s, kb) ==> lex_lt(#[trigger] entry_key_bytes(s[i]), kb),
        lower_bound(s, kb) < s.len() ==> !lex_lt(entry_key_bytes(s[lower_bound(s, kb) as int]), kb),
    decreases s.len(),
{
    if s.len() > 0 && lex_lt(entry_key_bytes(s[0]), kb) {
        let t = s.drop_first();
        lemma_lower_bound_facts(t, kb);
        assert forall|i: int| 0 <= i < lower_bound(s, kb) implies lex_lt(
            #[trigger] entry_key_bytes(s[i]),
            kb,
        ) by {
            if i > 0 {
                assert(s[i] == t[i - 1]);
            }
        }
        if lower_bound(s, kb) < s.len() {
            assert(s[lower_bound(s, kb) as int] == t[lower_bound(t, kb) as int]);
        }
    }
}

/// Putting keeps the entries sorted.
proof fn lemma_put_sorted(s: Seq<EntryView>, k: TableKeyView, v: TableValueView)
    requires
        entries_sorted(s),
    ensures
        entries_sorted(entries_put(s, k, v)),
{
    let kb = table_key_bytes(k);
    let p = lower_bound(s, kb) as int;
    lemma_lower_bound_facts(s, kb);
    let r = entries_put(s, k, v);
    if p < s.len() && s[p].0 == k {
        assert forall|i: int, j: int| 0 <= i < j < r.len() implies lex_lt(
            #[trigger] entry_key_bytes(r[i]),
            #[trigger] entry_key_bytes(r[j]),
        ) by {
            assert(entry_key_bytes(r[i]) == entry_key_bytes(s[i]));
            assert(entry_key_bytes(r[j]) == entry_key_bytes(s[j]));
        }
    } else {
        if p < s.len() {
            if entry_key_bytes(s[p]) == kb {
                lemma_table_key_roundtrip(s[p].0);
                lemma_table_key_roundtrip(k);
            } else {
                lemma_lex_total(entry_key_bytes(s[p]), kb);
            }
        }
        assert forall|i: int, j: int| 0 <= i < j < r.len() implies lex_lt(
            #[trigger] entry_key_bytes(r[i]),
            #[trigger] entry_key_bytes(r[j]),
        ) by {
            if j == p {
                assert(r[i] == s[i]);
            } else if i == p {
                assert(r[j] == s[j - 1]);
                if j - 1 > p {
                    assert(lex_lt(entry_key_bytes(s[p]), entry_key_bytes(s[j - 1])));
                    lemma_lex_transitive(kb, entry_key_bytes(s[p]), entry_key_bytes(s[j - 1]));
                }
            } else if i < p && j > p {
                assert(r[i] == s[i]);
                assert(r[j] == s[j - 1]);
            } else if j < p {
                assert(r[i] == s[i]);
                assert(r[j] == s[j]);
            } else {
                assert(r[i] == s[i - 1]);
                assert(r[j] == s[j - 1]);
            }
        }
    }
}

/// Removing an entry keeps the entries sorted.
proof fn lemma_delete_sorted(s: Seq<EntryView>, p: int)
    requires
        entries_sorted(s),
        0 <= p < s.len(),
    ensures
        entries_sorted(s.remove(p)),
{
    let r = s.remove(p);
    assert forall|i: int, j: int| 0 <= i < j < r.len() implies lex_lt(
        #[trigger] entry_key_bytes(r[i]),
        #[trigger] entry_key_bytes(r[j]),
    ) by {
        let si = if i < p {
            i
        } else {
            i + 1
        };
        let sj = if j < p {
            j
        } else {
            j + 1
        };
        assert(r[i] == s[si]);
        assert(r[j] == s[sj]);
    }
}

proof fn lemma_prepend_records(pre: Seq<EntryView>, used: int, e: EntryView, k: int, o: BlobOutcome)
    ensures
        prepend_records(pre, used, prepend_records(seq![e], k, o)) == prepend_records(
            pre.push(e),
            used + k,
            o,
        ),
{
    match o {
        BlobOutcome::Done(s, m) => {
            assert(pre + (seq![e] + s) =~= pre.push(e) + s);
        },
        _ => {},
    }
}

proof fn lemma_entries_record_push(s: Seq<EntryView>, i: int)
    requires
        0 <= i < s.len(),
    ensures
        entries_record(s.take(i + 1)) == entries_record(s.take(i)) + entry_record(s[i]),
    decreases i,
{
    if i == 0 {
        assert(s.take(1).drop_first() =~= Seq::<EntryView>::empty());
        assert(s.take(0) =~= Seq::<EntryView>::empty());
        assert(entry_record(s[0]) + Seq::<u8>::empty() =~= entry_record(s[0]));
    } else {
        lemma_entries_record_push(s.drop_first(), i - 1);
        assert(s.take(i + 1).drop_first() =~= s.drop_first().take(i));
        assert(s.take(i).drop_first() =~= s.drop_first().take(i - 1));
        assert(s.take(i + 1)[0] == s[0]);
        assert(s.take(i)[0] == s[0]);
        assert(entry_record(s[0]) + (entries_record(s.drop_first().take(i - 1)) + entry_record(
            s[i],
        )) =~= entry_record(s[0]) + entries_record(s.drop_first().take(i - 1)) + entry_record(
            s[i],
        ));
    }
}


/// Putting `(k, v)` into a sorted store makes `k` give `v` and leaves every
/// other key as it was.
pub proof fn lemma_put_then_get(s: Seq<EntryView>, k: TableKeyView, v: TableValueView, other: TableKeyView)
    requires
        entries_sorted(s),
    ensures
        entries_sorted(entries_put(s, k, v)),
        entries_get(entries_put(s, k, v), k) == Some(v),
        other != k ==> entries_get(entries_put(s, k, v), other) == entries_get(s, other),
{
    lemma_put_sorted(s, k, v);
    let r = entries_put(s, k, v);
    let p = lower_bound(s, table_key_bytes(k)) as int;
    lemma_lower_bound_facts(s, table_key_bytes(k));
    assert(r[p] == (k, v));
    lemma_get_at(r, p);
    if other != k {
        match entries_get(s, other) {
            Some(w) => {
                let q = lower_bound(s, table_key_bytes(other)) as int;
                assert(s[q].0 == other);
                let q2 = if p < s.len() && s[p].0 == k {
                    q
                } else if q < p {
                    q
                } else {
                    q + 1
                };
                assert(r[q2] == s[q]);
                lemma_get_at(r, q2);
            },
            None => {
                let q = lower_bound(s, table_key_bytes(other)) as int;
                lemma_absent(s, other, q);
                let q2 = lower_bound(r, table_key_bytes(other)) as int;
                lemma_lower_bound_facts(r, table_key_bytes(other));
                if q2 < r.len() && r[q2].0 == other {
                    if p < s.len() && s[p].0 == k {
                        if q2 != p {
                            assert(r[q2] == s[q2]);
                        }
                    } else if q2 < p {
                        assert(r[q2] == s[q2]);
                    } else if q2 > p {
                        assert(r[q2] == s[q2 - 1]);
                    }
                }
            },
        }
    }
}

/// Deleting `k` from a sorted store makes `k` give nothing and leaves every
/// other key as it was.
pub proof fn lemma_delete_then_get(s: Seq<EntryView>, k: TableKeyView, other: TableKeyView)
    requires
        entries_sorted(s),
    ensures
        entries_sorted(entries_delete(s, k)),
        entries_get(entries_delete(s, k), k) is None,
        other != k ==> entries_get(entries_delete(s, k), other) == entries_get(s, other),
{
    let p = lower_bound(s, table_key_bytes(k)) as int;
    lemma_lower_bound_facts(s, table_key_bytes(k));
    let r = entries_delete(s, k);
    if p < s.len() && s[p].0 == k {
        lemma_delete_sorted(s, p);
        // `k` was only at `p`.
        assert forall|i: int| 0 <= i < r.len() implies #[trigger] r[i].0 != k by {
            let si = if i < p {
                i
            } else {
                i + 1
            };
            assert(r[i] == s[si]);
            if s[si].0 == k {
                assert(entry_key_bytes(s[si]) == entry_key_bytes(s[p]));
                if si < p {
                    lemma_lex_asym(entry_key_bytes(s[si]), entry_key_bytes(s[p]));
                } else {
                    lemma_lex_asym(entry_key_bytes(s[p]), entry_key_bytes(s[si]));
                }
            }
        }
        let q = lower_bound(r, table_key_bytes(k)) as int;
        lemma_lower_bound_facts(r, table_key_bytes(k));
        if other != k {
            match entries_get(s, other) {
                Some(w) => {
                    let q1 = lower_bound(s, table_key_bytes(other)) as int;
                    assert(q1 != p);
                    let q2 = if q1 < p {
                        q1
                    } else {
                        q1 - 1
                    };
                    assert(r[q2] == s[q1]);
                    lemma_get_at(r, q2);
                },
                None => {
                    let q1 = lower_bound(s, table_key_bytes(other)) as int;
                    lemma_absent(s, other, q1);
                    let q2 = lower_bound(r, table_key_bytes(other)) as int;
                    lemma_lower_bound_facts(r, table_key_bytes(other));
                    if q2 < r.len() && r[q2].0 == other {
                        let si = if q2 < p {
                            q2
                        } else {
                            q2 + 1
                        };
                        assert(r[q2] == s[si]);
                    }
                },
            }
        }
    } else {
        lemma_absent(s, k, p);
    }
}

/// A length-prefixed run followed by anything reads back as the run.
proof fn lemma_run_roundtrip(b: Seq<u8>, rest: Seq<u8>)
    requires
        b.len() < 0x1_0000_0000,
    ensures
        run_parse(length_prefix(b.len()) + b + rest) == Some((b, 4 + b.len() as int)),
        (length_prefix(b.len()) + b + rest).skip(4 + b.len() as int) == rest,
{
    lemma_pow256_values();
    lemma_be_bytes_len(b.len(), 4);
    lemma_be_value_of_bytes(b.len(), 4);
    let r = length_prefix(b.len()) + b + rest;
    assert(r.take(4) =~= be_bytes(b.len(), 4));
    assert(r.subrange(4, 4 + b.len() as int) =~= b);
    assert(r.skip(4 + b.len() as int) =~= rest);
}

/// A record followed by anything reads back as the entry.
#[verifier::rlimit(40)]
#[verifier::spinoff_prover]
proof fn lemma_record_roundtrip(e: EntryView, rest: Seq<u8>)
    requires
        table_key_bytes(e.0).len() < 0x1_0000_0000,
        value_bytes(e.1).len() < 0x1_0000_0000,
        value_well_formed(e.1),
    ensures
        record_parse(entry_record(e) + rest) == BlobOutcome::Done(
            seq![e],
            entry_record(e).len() as int,
        ),
{
    let kb = table_key_bytes(e.0);
    let vb = value_bytes(e.1);
    lemma_table_key_roundtrip(e.0);
    lemma_value_roundtrip(e.1);
    let tail = length_prefix(vb.len()) + vb + rest;
    let r = entry_record(e) + rest;
    assert(r =~= length_prefix(kb.len()) + kb + tail);
    lemma_run_roundtrip(kb, tail);
    lemma_run_roundtrip(vb, rest);
    lemma_be_bytes_len(kb.len() % 0x1_0000_0000, 4);
    lemma_be_bytes_len(vb.len() % 0x1_0000_0000, 4);
    let a = 4 + kb.len() as int;
    assert(r.skip(a) == tail);
    assert(seq![(e.0, e.1)] =~= seq![e]);
    assert(entry_record(e).len() == a + 4 + vb.len());
    assert(record_parse(r) == BlobOutcome::Done(seq![e], entry_record(e).len() as int)) by {
        reveal(record_parse);
    }
}

/// Records followed by anything read back as the entries.
#[verifier::rlimit(100)]
proof fn lemma_records_roundtrip(s: Seq<EntryView>, rest: Seq<u8>)
    requires
        forall|i: int|
            0 <= i < s.len() ==> table_key_bytes(#[trigger] s[i].0).len() < 0x1_0000_0000
                && value_bytes(s[i].1).len() < 0x1_0000_0000 && value_well_formed(s[i].1),
    ensures
        records_parse(entries_record(s) + rest, s.len()) == BlobOutcome::Done(
            s,
            entries_record(s).len() as int,
        ),
    decreases s.len(),
{
    if s.len() == 0 {
        assert(s =~= Seq::<EntryView>::empty());
    } else {
        let e = s[0];
        let t = s.drop_first();
        assert forall|i: int| 0 <= i < t.len() implies table_key_bytes(#[trigger] t[i].0).len()
            < 0x1_0000_0000 && value_bytes(t[i].1).len() < 0x1_0000_0000 && value_well_formed(
            t[i].1,
        ) by {
            assert(t[i] == s[i + 1]);
        }
        lemma_records_roundtrip(t, rest);
        let r = entries_record(s) + rest;
        assert(r =~= entry_record(e) + (entries_record(t) + rest));
        lemma_record_roundtrip(e, entries_record(t) + rest);
        let k = entry_record(e).len() as int;
        assert(r.skip(k) =~= entries_record(t) + rest);
        assert(seq![e] + t =~= s);
        assert((s.len() - 1) as nat == t.len());
    }
}

/// Putting the entries of a sorted store, in order, into an empty one builds
/// the same store.
proof fn lemma_build_sorted(s: Seq<EntryView>)
    requires
        entries_sorted(s),
    ensures
        entries_build(s) == s,
    decreases s.len(),
{
    if s.len() > 0 {
        let t = s.drop_last();
        assert(entries_sorted(t)) by {
            assert forall|i: int, j: int| 0 <= i < j < t.len() implies lex_lt(
                #[trigger] entry_key_bytes(t[i]),
                #[trigger] entry_key_bytes(t[j]),
            ) by {
                assert(t[i] == s[i] && t[j] == s[j]);
            }
        }
        lemma_build_sorted(t);
        let e = s.last();
        let kb = table_key_bytes(e.0);
        assert forall|i: int| 0 <= i < t.len() implies lex_lt(#[trigger] entry_key_bytes(t[i]), kb) by {
            assert(t[i] == s[i]);
            assert(e == s[s.len() - 1]);
            assert(kb == entry_key_bytes(s[s.len() - 1]));
            assert(lex_lt(entry_key_bytes(s[i]), entry_key_bytes(s[s.len() - 1])));
        }
        lemma_lower_bound(t, kb, t.len() as int);
        assert(t.insert(t.len() as int, e) =~= s);
    }
}

/// Reading back the blob of a sorted store rebuilds the store, whenever its
/// parts fit the blob's length fields and every value can be stored.
#[verifier::rlimit(100)]
pub proof fn lemma_blob_roundtrip(s: Seq<EntryView>)
    requires
        entries_sorted(s),
        s.len() < 0x1_0000_0000,
        forall|i: int|
            0 <= i < s.len() ==> table_key_bytes(#[trigger] s[i].0).len() < 0x1_0000_0000
                && value_bytes(s[i].1).len() < 0x1_0000_0000 && value_well_formed(s[i].1),
    ensures
        blob_parse(blob_bytes(s)) == BlobOutcome::Done(s, entries_record(s).len() as int),
        entries_build(s) == s,
{
    let b = blob_bytes(s);
    lemma_pow256_values();
    lemma_be_bytes_len(s.len() % 0x1_0000_0000, 4);
    lemma_be_value_of_bytes(s.len() % 0x1_0000_0000, 4);
    assert(b.take(4) =~= be_bytes(s.len() % 0x1_0000_0000, 4));
    assert(b.skip(4) =~= entries_record(s) + Seq::<u8>::empty());
    lemma_records_roundtrip(s, Seq::<u8>::empty());
    lemma_build_sorted(s);
}
} // verus!
