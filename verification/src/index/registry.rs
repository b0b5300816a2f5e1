//! The secondary-index registry, persisted as one blob in the reserved
//! `$metadata` table: an id allocator plus every registered entry. Each entry
//! is scoped by table name, so two tables may reuse an index name.
//!
//! The functions here take the blob as read from the metadata table (`None`
//! when there is none yet) and give back what to store.

use crate::bytes::{be_bytes, be_value, lemma_be_bytes_len, lemma_be_value_of_bytes, lemma_pow256_values};
use crate::codec::{put_bytes, put_u32, Reader};
use crate::error::{corrupt, SdbError, SdbResult};
use crate::index::definitions::index::{
    def_bytes, def_encodable, def_parse, def_skim, lemma_def_parse_bound, lemma_def_roundtrip,
    lemma_def_skim_bound, lemma_def_skim_roundtrip, IndexDef,
    IndexDefView,
};
use crate::index::definitions::{lemma_str_roundtrip, read_string, str_field, str_parse, ParseOutcome};
use crate::index::id::IndexId;
use crate::scalar::utf8_str;
use crate::text::{push_str, str_eq};
use vstd::prelude::*;
use vstd::utf8::encode_utf8;

verus! {

/// One registered index: its owning table, allocated id, and definition.
#[derive(Debug)]
pub struct IndexEntry {
    table: String,
    id: IndexId,
    def: IndexDef,
}

/// The mathematical form of an [`IndexEntry`].
pub struct IndexEntryView {
    pub table: Seq<char>,
    pub id: u32,
    pub def: IndexDefView,
}

impl View for IndexEntry {
    type V = IndexEntryView;

    closed spec fn view(&self) -> IndexEntryView {
        IndexEntryView { table: self.table@, id: self.id.0, def: self.def@ }
    }
}

impl IndexEntry {
    /// An entry for `def` on `table` under `id`.
    pub fn new(table: String, id: IndexId, def: IndexDef) -> (e: IndexEntry)
        ensures
            e@ == (IndexEntryView { table: table@, id: id.0, def: def@ }),
    {
        IndexEntry { table, id, def }
    }

    /// The owning table.
    pub fn table(&self) -> (s: &str)
        ensures
            s@ == self@.table,
    {
        self.table.as_str()
    }

    /// The allocated id.
    pub fn id(&self) -> (i: IndexId)
        ensures
            i.0 == self@.id,
    {
        self.id
    }

    /// The definition.
    pub fn def(&self) -> (d: &IndexDef)
        ensures
            d@ == self@.def,
    {
        &self.def
    }

    /// The definition, taken out of the entry.
    pub fn into_def(self) -> (d: IndexDef)
        ensures
            d@ == self@.def,
    {
        self.def
    }
}

/// The mathematical form of a [`RegistryRepository`].
pub struct RegistryView {
    pub next_id: u32,
    pub entries: Seq<IndexEntryView>,
}

/// The whole registry: an id allocator plus every registered entry.
#[derive(Debug)]
pub struct RegistryRepository {
    next_id: u32,
    entries: Vec<IndexEntry>,
}

impl View for RegistryRepository {
    type V = RegistryView;

    closed spec fn view(&self) -> RegistryView {
        RegistryView {
            next_id: self.next_id,
            entries: self.entries@.map_values(|e: IndexEntry| e@),
        }
    }
}

impl Default for RegistryRepository {
    fn default() -> (r: RegistryRepository)
        ensures
            r@ == (RegistryView { next_id: 0, entries: Seq::empty() }),
    {
        let r = RegistryRepository { next_id: 0, entries: Vec::new() };
        assert(r@.entries =~= Seq::<IndexEntryView>::empty());
        r
    }
}

/// The record of one entry: table name, id, definition.
pub open spec fn entry_record(e: IndexEntryView) -> Seq<u8> {
    str_field(e.table) + be_bytes(e.id as nat, 4) + def_bytes(e.def)
}

/// The records of a run of entries, in order.
pub open spec fn entries_record(es: Seq<IndexEntryView>) -> Seq<u8>
    decreases es.len(),
{
    if es.len() == 0 {
        Seq::empty()
    } else {
        entry_record(es[0]) + entries_record(es.drop_first())
    }
}

/// The stored registry: the id allocator, the entry count (as a `u32`), and
/// the entries.
pub open spec fn registry_bytes(reg: RegistryView) -> Seq<u8> {
    be_bytes(reg.next_id as nat, 4) + be_bytes(reg.entries.len() % 0x1_0000_0000, 4)
        + entries_record(reg.entries)
}

/// Reading one entry record from the front of `r`.
pub open spec fn entry_parse(r: Seq<u8>) -> ParseOutcome<IndexEntryView> {
    match str_parse(r) {
        None => ParseOutcome::Corrupt,
        Some((table, a)) => if r.len() < a + 4 {
            ParseOutcome::Corrupt
        } else {
            let id = be_value(r.subrange(a, a + 4)) as u32;
            match def_parse(r.skip(a + 4)) {
                ParseOutcome::Done(def, b) => ParseOutcome::Done(
                    IndexEntryView { table, id, def },
                    a + 4 + b,
                ),
                ParseOutcome::Corrupt => ParseOutcome::Corrupt,
                ParseOutcome::BadPath => ParseOutcome::BadPath,
            }
        },
    }
}

/// Reading `n` entry records from the front of `r`.
pub open spec fn entries_parse(r: Seq<u8>, n: nat) -> ParseOutcome<Seq<IndexEntryView>>
    decreases n,
{
    if n == 0 {
        ParseOutcome::Done(Seq::empty(), 0)
    } else {
        match entry_parse(r) {
            ParseOutcome::Done(e, k) => prepend_entries(
                seq![e],
                k,
                entries_parse(r.skip(k), (n - 1) as nat),
            ),
            ParseOutcome::Corrupt => ParseOutcome::Corrupt,
            ParseOutcome::BadPath => ParseOutcome::BadPath,
        }
    }
}

/// The registry a stored blob holds; bytes after the last entry are ignored.
pub open spec fn registry_parse(b: Seq<u8>) -> ParseOutcome<RegistryView> {
    if b.len() < 8 {
        ParseOutcome::Corrupt
    } else {
        let next_id = be_value(b.take(4)) as u32;
        let count = be_value(b.subrange(4, 8));
        match entries_parse(b.skip(8), count) {
            ParseOutcome::Done(es, m) => ParseOutcome::Done(
                RegistryView { next_id, entries: es },
                8 + m,
            ),
            ParseOutcome::Corrupt => ParseOutcome::Corrupt,
            ParseOutcome::BadPath => ParseOutcome::BadPath,
        }
    }
}

/// The registry held by what the metadata table has under the registry key:
/// the empty registry when there is nothing.
pub open spec fn registry_load(blob: Option<&[u8]>) -> ParseOutcome<RegistryView> {
    match blob {
        None => ParseOutcome::Done(RegistryView { next_id: 0, entries: Seq::empty() }, 0),
        Some(b) => registry_parse(b@),
    }
}

/// The outcome's error, as the decoder reports it.
pub open spec fn outcome_error<T, U>(o: ParseOutcome<T>, r: SdbResult<U>) -> bool {
    match o {
        ParseOutcome::Corrupt => r matches Err(e) && e is Corrupt,
        ParseOutcome::BadPath => r matches Err(e) && e is InvalidPath,
        ParseOutcome::Done(_, _) => true,
    }
}

/// Whether an entry belongs to `table`.
pub open spec fn on_table(table: Seq<char>) -> spec_fn(IndexEntryView) -> bool {
    |e: IndexEntryView| e.table == table
}

/// Entry `e` is the index `name` on `table`.
pub open spec fn entry_is(e: IndexEntryView, table: Seq<char>, name: Seq<char>) -> bool {
    e.table == table && e.def.name == name
}

/// The position of the first entry for `table` named `name`.
pub open spec fn find_entry(es: Seq<IndexEntryView>, table: Seq<char>, name: Seq<char>) -> Option<
    int,
> {
    if exists|i: int| 0 <= i < es.len() && #[trigger] entry_is(es[i], table, name) {
        Some(
            choose|i: int|
                0 <= i < es.len() && entry_is(es[i], table, name) && forall|j: int|
                    0 <= j < i ==> !#[trigger] entry_is(es[j], table, name),
        )
    } else {
        None
    }
}

/// The registry once `def` is registered on `table`: the entry takes the next
/// id, which then moves on by one.
pub open spec fn registry_with(reg: RegistryView, table: Seq<char>, def: IndexDefView) -> RegistryView {
    RegistryView {
        next_id: (reg.next_id + 1) as u32,
        entries: reg.entries.push(IndexEntryView { table, id: reg.next_id, def }),
    }
}

/// The registry without its `i`-th entry; the id allocator is left as it is,
/// so ids are never reused.
pub open spec fn registry_without(reg: RegistryView, i: int) -> RegistryView {
    RegistryView { next_id: reg.next_id, entries: reg.entries.remove(i) }
}

/// Reading `n` entry records from the front of `r`, looking at nothing but
/// each record's table and index name, and stopping at the first for `table`
/// named `name`: whether one was found, or `None` when a record before it is
/// malformed.
pub open spec fn registry_scan(r: Seq<u8>, n: nat, table: Seq<char>, name: Seq<char>) -> Option<
    bool,
>
    decreases n,
{
    if n == 0 {
        Some(false)
    } else {
        match str_parse(r) {
            None => None,
            Some((t, a)) => if r.len() < a + 4 {
                None
            } else {
                match def_skim(r.skip(a + 4)) {
                    None => None,
                    Some((nm, k)) => if t == table && nm == name {
                        Some(true)
                    } else {
                        registry_scan(r.skip(a + 4 + k), (n - 1) as nat, table, name)
                    },
                }
            },
        }
    }
}

/// What a presence check finds in stored registry bytes (`None`: they are
/// malformed).
pub open spec fn registry_has_bytes(b: Seq<u8>, table: Seq<char>, name: Seq<char>) -> Option<bool> {
    if b.len() < 8 {
        None
    } else {
        registry_scan(b.skip(8), be_value(b.subrange(4, 8)), table, name)
    }
}

/// What a presence check finds in a stored blob (`None`: it is malformed).
pub open spec fn registry_has(blob: Option<&[u8]>, table: Seq<char>, name: Seq<char>) -> Option<bool> {
    match blob {
        None => Some(false),
        Some(b) => registry_has_bytes(b@, table, name),
    }
}

/// A registry every part of which its stored form carries back.
pub open spec fn registry_encodable(reg: RegistryView) -> bool {
    &&& reg.entries.len() < 0x1_0000_0000
    &&& forall|i: int|
        0 <= i < reg.entries.len() ==> encode_utf8(#[trigger] reg.entries[i].table).len()
            < 0x1_0000_0000 && def_encodable(reg.entries[i].def)
}

impl RegistryRepository {
    /// Decodes a stored registry.
    pub fn decode(data: &[u8]) -> (res: SdbResult<RegistryRepository>)
        ensures
            match registry_parse(data@) {
                ParseOutcome::Done(reg, _) => res matches Ok(x) && x@ == reg,
                o => outcome_error(o, res),
            },
    {
        let mut r = Reader::new(data);
        let next_id = match r.u32() {
            Ok(v) => v,
            Err(e) => {
                return Err(e);
            },
        };
        let count = match r.u32() {
            Ok(v) => v,
            Err(e) => {
                return Err(e);
            },
        };
        proof {
            assert(data@.skip(4).take(4) =~= data@.subrange(4, 8));
            assert(r@ =~= data@.skip(8));
        }
        let ghost rest = r@;
        let ghost mut used: int = 0;
        let mut entries: Vec<IndexEntry> = Vec::new();
        let mut i: u32 = 0;
        while i < count
            invariant
                i <= count,
                0 <= used <= rest.len(),
                r@ == rest.skip(used),
                rest == data@.skip(8),
                count as nat == be_value(data@.subrange(4, 8)),
                next_id as nat == be_value(data@.take(4)),
                data@.len() >= 8,
                entries_parse(rest, count as nat) == prepend_entries(
                    entries@.map_values(|e: IndexEntry| e@),
                    used,
                    entries_parse(r@, (count - i) as nat),
                ),
            decreases count - i,
        {
            let ghost here = r@;
            let entry = decode_entry(&mut r)?;
            let ghost pre = entries@.map_values(|e: IndexEntry| e@);
            entries.push(entry);
            proof {
                lemma_entry_parse_bound(here);
                let k = entry_parse(here)->Done_1;
                assert(r@ =~= rest.skip(used + k));
                assert(entries@.map_values(|e: IndexEntry| e@) =~= pre.push(entry@));
                lemma_prepend_entries(pre, used, entry@, k, entries_parse(r@, (count - i - 1) as nat));
                used = used + k;
            }
            i = i + 1;
        }
        proof {
            assert(entries@.map_values(|e: IndexEntry| e@) + Seq::<IndexEntryView>::empty()
                =~= entries@.map_values(|e: IndexEntry| e@));
        }
        Ok(RegistryRepository { next_id, entries })
    }

    /// Decodes what the metadata table holds under the registry key; nothing
    /// there is the empty registry.
    pub fn load(blob: Option<&[u8]>) -> (res: SdbResult<RegistryRepository>)
        ensures
            match registry_load(blob) {
                ParseOutcome::Done(reg, _) => res matches Ok(x) && x@ == reg,
                o => outcome_error(o, res),
            },
            res matches Ok(x) ==> x@.entries.len() <= u32::MAX,
    {
        proof {
            if let Some(b) = blob {
                lemma_parsed_registry_bounded(b@);
            }
        }
        match blob {
            Some(data) => RegistryRepository::decode(data),
            None => Ok(RegistryRepository::default()),
        }
    }

    /// Encodes the registry, including its entry count as a `u32`; a registry
    /// of more than `u32::MAX` entries is [`Corrupt`](SdbError::Corrupt).
    pub fn encode(&self) -> (res: SdbResult<Vec<u8>>)
        ensures
            self@.entries.len() <= u32::MAX ==> (res matches Ok(b) && b@ == registry_bytes(self@)),
            self@.entries.len() > u32::MAX ==> (res matches Err(e) && e is Corrupt),
    {
        if self.entries.len() > 0xffff_ffff {
            return Err(corrupt("index registry exceeds u32::MAX entries"));
        }
        let mut buf: Vec<u8> = Vec::new();
        put_u32(&mut buf, self.next_id);
        put_u32(&mut buf, self.entries.len() as u32);
        let ghost head = buf@;
        let ghost es = self@.entries;
        let mut i: usize = 0;
        while i < self.entries.len()
            invariant
                i <= self.entries@.len(),
                es == self.entries@.map_values(|e: IndexEntry| e@),
                buf@ == head + entries_record(es.take(i as int)),
            decreases self.entries@.len() - i,
        {
            let entry = &self.entries[i];
            put_bytes(&mut buf, entry.table().as_bytes());
            put_u32(&mut buf, entry.id().0);
            entry.def().encode(&mut buf);
            proof {
                lemma_entries_record_push(es, i as int);
                assert(es[i as int] == entry@);
                assert(buf@ =~= head + entries_record(es.take(i + 1)));
            }
            i = i + 1;
        }
        proof {
            assert(es.take(i as int) =~= es);
            assert(self.entries@.len() % 0x1_0000_0000 == self.entries@.len());
            assert(buf@ =~= registry_bytes(self@));
        }
        Ok(buf)
    }
}

impl RegistryRepository {
    /// The position of the first entry for `table` named `name`.
    pub fn position(&self, table: &str, name: &str) -> (r: Option<usize>)
        ensures
            r matches Some(i) ==> find_entry(self@.entries, table@, name@) == Some(i as int) && i
                < self@.entries.len(),
            r is None ==> find_entry(self@.entries, table@, name@) is None,
    {
        let ghost es = self@.entries;
        let mut i: usize = 0;
        while i < self.entries.len()
            invariant
                i <= self.entries@.len(),
                es == self.entries@.map_values(|e: IndexEntry| e@),
                forall|j: int| 0 <= j < i ==> !#[trigger] entry_is(es[j], table@, name@),
            decreases self.entries@.len() - i,
        {
            let e = &self.entries[i];
            assert(es[i as int] == e@);
            if str_eq(e.table(), table) && str_eq(e.def().name(), name) {
                proof {
                    assert(entry_is(es[i as int], table@, name@));
                    let c = choose|c: int|
                        0 <= c < es.len() && entry_is(es[c], table@, name@) && forall|j: int|
                            0 <= j < c ==> !#[trigger] entry_is(es[j], table@, name@);
                    if c > i {
                        assert(!entry_is(es[i as int], table@, name@));
                    }
                }
                return Some(i);
            }
            i = i + 1;
        }
        None
    }

    /// Looks up the index `name` on `table` in a stored registry.
    pub fn lookup(blob: Option<&[u8]>, table: &str, name: &str) -> (res: SdbResult<Option<IndexEntry>>)
        ensures
            match registry_load(blob) {
                ParseOutcome::Done(reg, _) => res matches Ok(r) && match find_entry(
                    reg.entries,
                    table@,
                    name@,
                ) {
                    Some(i) => r matches Some(e) && e@ == reg.entries[i],
                    None => r is None,
                },
                o => outcome_error(o, res),
            },
    {
        let mut registry = RegistryRepository::load(blob)?;
        match registry.position(table, name) {
            Some(i) => {
                let ghost es = registry.entries@;
                let entry = registry.entries.remove(i);
                assert(entry == es[i as int]);
                Ok(Some(entry))
            },
            None => Ok(None),
        }
    }

    /// Every index registered on `table` in a stored registry, in
    /// registration order.
    pub fn for_table(blob: Option<&[u8]>, table: &str) -> (res: SdbResult<Vec<IndexEntry>>)
        ensures
            match registry_load(blob) {
                ParseOutcome::Done(reg, _) => res matches Ok(v) && v@.map_values(|e: IndexEntry| e@)
                    == reg.entries.filter(on_table(table@)),
                o => outcome_error(o, res),
            },
    {
        let registry = RegistryRepository::load(blob)?;
        let ghost all = registry@.entries;
        let mut rest = registry.entries;
        let mut out: Vec<IndexEntry> = Vec::new();
        let ghost mut k: int = 0;
        while rest.len() > 0
            invariant
                0 <= k <= all.len(),
                rest@.map_values(|e: IndexEntry| e@) == all.skip(k),
                out@.map_values(|e: IndexEntry| e@) == all.take(k).filter(on_table(table@)),
            decreases rest@.len(),
        {
            let ghost before = rest@;
            proof {
                assert(before.map_values(|e: IndexEntry| e@).len() == before.len());
                assert(k < all.len());
            }
            let entry = rest.remove(0);
            proof {
                assert(entry@ == before.map_values(|e: IndexEntry| e@)[0]);
                assert(all.skip(k)[0] == all[k]);
                assert(all.take(k + 1).drop_last() =~= all.take(k));
                assert(all.take(k + 1).last() == all[k]);
            }
            let ghost pre = out@.map_values(|e: IndexEntry| e@);
            if str_eq(entry.table(), table) {
                out.push(entry);
                assert(out@.map_values(|e: IndexEntry| e@) =~= pre.push(entry@));
            }
            proof {
                let p = on_table(table@);
                let t1 = all.take(k + 1);
                assert(t1.len() == k + 1);
                assert(t1.drop_last() =~= all.take(k));
                assert(t1.last() == all[k]);
                assert(t1 =~= all.take(k).push(all[k]));
                all.take(k).lemma_filter_push(all[k], p);
                assert(all.take(k + 1).filter(p) == (if p(all[k]) {
                    all.take(k).filter(p).push(all[k])
                } else {
                    all.take(k).filter(p)
                }));
                assert(p(all[k]) == (entry@.table == table@));
                assert(rest@ =~= before.subrange(1, before.len() as int));
                let rv = rest@.map_values(|e: IndexEntry| e@);
                let bv = before.map_values(|e: IndexEntry| e@);
                assert forall|j: int| 0 <= j < all.skip(k + 1).len() implies #[trigger] rv[j]
                    == all.skip(k + 1)[j] by {
                    assert(rest@[j] == before[j + 1]);
                    assert(bv[j + 1] == all.skip(k)[j + 1]);
                }
                assert(rv =~= all.skip(k + 1));
                k = k + 1;
            }
        }
        proof {
            assert(all.skip(k).len() == 0);
            assert(all.take(k) =~= all);
        }
        Ok(out)
    }

    /// Whether the index `name` is registered on `table`, reading only each
    /// record's table and index name and stopping at the first match.
    pub fn has(blob: Option<&[u8]>, table: &str, name: &str) -> (res: SdbResult<bool>)
        ensures
            match registry_has(blob, table@, name@) {
                Some(b) => res matches Ok(x) && x == b,
                None => res matches Err(e) && e is Corrupt,
            },
    {
        let data = match blob {
            Some(d) => d,
            None => {
                return Ok(false);
            },
        };
        let mut r = Reader::new(data);
        let _next_id = match r.u32() {
            Ok(v) => v,
            Err(e) => {
                return Err(e);
            },
        };
        let count = match r.u32() {
            Ok(v) => v,
            Err(e) => {
                return Err(e);
            },
        };
        proof {
            assert(data@.skip(4).take(4) =~= data@.subrange(4, 8));
            assert(r@ =~= data@.skip(8));
        }
        let mut i: u32 = 0;
        while i < count
            invariant
                i <= count,
                blob == Some(data),
                data@.len() >= 8,
                count as nat == be_value(data@.subrange(4, 8)),
                registry_scan(data@.skip(8), count as nat, table@, name@) == registry_scan(
                    r@,
                    (count - i) as nat,
                    table@,
                    name@,
                ),
            decreases count - i,
        {
            let ghost here = r@;
            let raw = r.bytes()?;
            let entry_table = match utf8_str(raw) {
                Some(t) => t,
                None => {
                    return Err(corrupt("invalid utf-8 in index registry"));
                },
            };
            let ghost a = 4 + be_value(here.take(4)) as int;
            let _id = match r.u32() {
                Ok(v) => v,
                Err(e) => {
                    return Err(e);
                },
            };
            proof {
                assert(r@ =~= here.skip(a + 4));
            }
            let ghost at_def = r@;
            let entry_name = IndexDef::decode_name(&mut r)?;
            proof {
                let k = def_skim(at_def)->Some_0.1;
                lemma_def_skim_bound(at_def);
                assert(at_def.skip(k) =~= here.skip(a + 4 + k));
            }
            if str_eq(entry_table, table) && str_eq(entry_name, name) {
                return Ok(true);
            }
            i = i + 1;
        }
        Ok(false)
    }

    /// Removes the index `name` on `table` from a stored registry, giving the
    /// removed entry and the registry to store; `None` when there is no such
    /// index. The id allocator is left as it is: ids are never reused.
    pub fn delete(blob: Option<&[u8]>, table: &str, name: &str) -> (res: SdbResult<
        Option<(IndexEntry, Vec<u8>)>,
    >)
        ensures
            match registry_load(blob) {
                ParseOutcome::Done(reg, _) => match find_entry(reg.entries, table@, name@) {
                    None => res matches Ok(r) && r is None,
                    Some(i) => res matches Ok(r) && r matches Some(p) && p.0@ == reg.entries[i]
                        && p.1@ == registry_bytes(registry_without(reg, i)),
                },
                o => outcome_error(o, res),
            },
    {
        proof {
            if let Some(b) = blob {
                lemma_parsed_registry_bounded(b@);
            }
        }
        let mut registry = RegistryRepository::load(blob)?;
        let pos = match registry.position(table, name) {
            Some(p) => p,
            None => {
                return Ok(None);
            },
        };
        let ghost before = registry@;
        let ghost raw = registry.entries@;
        let entry = registry.entries.remove(pos);
        proof {
            assert(registry.entries@ == raw.remove(pos as int));
            assert(registry.entries@.map_values(|e: IndexEntry| e@) =~= raw.map_values(
                |e: IndexEntry| e@,
            ).remove(pos as int));
            assert(registry@ =~= registry_without(before, pos as int));
        }
        let bytes = registry.encode()?;
        Ok(Some((entry, bytes)))
    }

    /// Registers `def` on `table` in a stored registry, giving the registry to
    /// store, or `None` when an identical definition is already registered
    /// under that name (creation is idempotent). A different definition under
    /// the name is a [`SchemaMismatch`](SdbError::SchemaMismatch); an exhausted
    /// id counter is [`Corrupt`](SdbError::Corrupt).
    pub fn create(blob: Option<&[u8]>, table: &str, def: &IndexDef) -> (res: SdbResult<
        Option<Vec<u8>>,
    >)
        ensures
            match registry_load(blob) {
                ParseOutcome::Done(reg, _) => match find_entry(reg.entries, table@, def@.name) {
                    Some(i) => if reg.entries[i].def == def@ {
                        res matches Ok(r) && r is None
                    } else {
                        res matches Err(e) && e is SchemaMismatch
                    },
                    None => if reg.next_id == u32::MAX || reg.entries.len() + 1 > u32::MAX {
                        res matches Err(e) && e is Corrupt
                    } else {
                        res matches Ok(r) && r matches Some(b) && b@ == registry_bytes(
                            registry_with(reg, table@, def@),
                        )
                    },
                },
                o => outcome_error(o, res),
            },
    {
        let mut registry = RegistryRepository::load(blob)?;
        match registry.position(table, def.name()) {
            Some(i) => {
                if registry.entries[i].def().same_as(def) {
                    return Ok(None);
                }
                let mut msg = String::new();
                push_str(&mut msg, "index '");
                push_str(&mut msg, def.name());
                push_str(&mut msg, "' on table '");
                push_str(&mut msg, table);
                push_str(&mut msg, "' already exists with a different definition");
                return Err(SdbError::SchemaMismatch(msg));
            },
            None => {},
        }
        let id = registry.next_id;
        registry.next_id = match id.checked_add(1) {
            Some(n) => n,
            None => {
                return Err(corrupt("index registry id counter overflow"));
            },
        };
        let ghost before = registry.entries@;
        let entry = IndexEntry::new(table.to_string(), IndexId(id), def.duplicate());
        registry.entries.push(entry);
        proof {
            assert(registry.entries@.map_values(|e: IndexEntry| e@) =~= before.map_values(
                |e: IndexEntry| e@,
            ).push(entry@));
        }
        let bytes = registry.encode()?;
        Ok(Some(bytes))
    }
}

/// Decodes one entry record.
fn decode_entry(r: &mut Reader<'_>) -> (res: SdbResult<IndexEntry>)
    ensures
        match entry_parse(old(r)@) {
            ParseOutcome::Done(e, k) => res matches Ok(x) && x@ == e && final(r)@ == old(r)@.skip(k),
            o => outcome_error(o, res),
        },
{
    let ghost here = r@;
    let table = read_string(r)?;
    let ghost a = 4 + be_value(here.take(4)) as int;
    let id = match r.u32() {
        Ok(v) => v,
        Err(e) => {
            return Err(e);
        },
    };
    proof {
        assert(here.skip(a).take(4) =~= here.subrange(a, a + 4));
        assert(r@ =~= here.skip(a + 4));
    }
    let ghost at_def = r@;
    let def = IndexDef::decode(r)?;
    proof {
        lemma_def_parse_bound(at_def);
        let b = def_parse(at_def)->Done_1;
        assert(at_def.skip(b) =~= here.skip(a + 4 + b));
    }
    Ok(IndexEntry::new(table, IndexId(id), def))
}

/// What reading an entry takes lies within the bytes.
proof fn lemma_entry_parse_bound(r: Seq<u8>)
    ensures
        entry_parse(r) matches ParseOutcome::Done(_, k) ==> 0 <= k <= r.len(),
{
    match str_parse(r) {
        Some((table, a)) => {
            if r.len() >= a + 4 {
                lemma_def_parse_bound(r.skip(a + 4));
            }
        },
        None => {},
    }
}

/// `o` with `pre` (spanning `k` bytes) in front of what it read.
pub open spec fn prepend_entries(
    pre: Seq<IndexEntryView>,
    k: int,
    o: ParseOutcome<Seq<IndexEntryView>>,
) -> ParseOutcome<Seq<IndexEntryView>> {
    match o {
        ParseOutcome::Done(es, m) => ParseOutcome::Done(pre + es, k + m),
        ParseOutcome::Corrupt => ParseOutcome::Corrupt,
        ParseOutcome::BadPath => ParseOutcome::BadPath,
    }
}

proof fn lemma_prepend_entries(
    pre: Seq<IndexEntryView>,
    used: int,
    e: IndexEntryView,
    k: int,
    o: ParseOutcome<Seq<IndexEntryView>>,
)
    ensures
        prepend_entries(pre, used, prepend_entries(seq![e], k, o)) == prepend_entries(
            pre.push(e),
            used + k,
            o,
        ),
{
    match o {
        ParseOutcome::Done(es, m) => {
            assert(pre + (seq![e] + es) =~= pre.push(e) + es);
        },
        _ => {},
    }
}

proof fn lemma_entries_record_push(es: Seq<IndexEntryView>, i: int)
    requires
        0 <= i < es.len(),
    ensures
        entries_record(es.take(i + 1)) == entries_record(es.take(i)) + entry_record(es[i]),
    decreases i,
{
    if i == 0 {
        assert(es.take(1).drop_first() =~= Seq::<IndexEntryView>::empty());
        assert(es.take(0) =~= Seq::<IndexEntryView>::empty());
        assert(entry_record(es[0]) + Seq::<u8>::empty() =~= entry_record(es[0]));
    } else {
        lemma_entries_record_push(es.drop_first(), i - 1);
        assert(es.take(i + 1).drop_first() =~= es.drop_first().take(i));
        assert(es.take(i).drop_first() =~= es.drop_first().take(i - 1));
        assert(es.take(i + 1)[0] == es[0]);
        assert(es.take(i)[0] == es[0]);
        assert(entry_record(es[0]) + (entries_record(es.drop_first().take(i - 1)) + entry_record(
            es[i],
        )) =~= entry_record(es[0]) + entries_record(es.drop_first().take(i - 1)) + entry_record(
            es[i],
        ));
    }
}


/// An entry record followed by anything reads back as the entry.
proof fn lemma_entry_roundtrip(e: IndexEntryView, rest: Seq<u8>)
    requires
        encode_utf8(e.table).len() < 0x1_0000_0000,
        def_encodable(e.def),
    ensures
        entry_parse(entry_record(e) + rest) == ParseOutcome::Done(e, entry_record(e).len() as int),
{
    let r = entry_record(e) + rest;
    let ft = str_field(e.table);
    let idb = be_bytes(e.id as nat, 4);
    let db = def_bytes(e.def);
    assert(r =~= ft + (idb + db + rest));
    lemma_str_roundtrip(e.table, idb + db + rest);
    let a = ft.len() as int;
    lemma_pow256_values();
    lemma_be_bytes_len(e.id as nat, 4);
    lemma_be_value_of_bytes(e.id as nat, 4);
    assert(r.subrange(a, a + 4) =~= idb);
    assert(r.skip(a + 4) =~= db + rest);
    lemma_def_roundtrip(e.def, rest);
}

/// Entry records followed by anything read back as the entries.
#[verifier::rlimit(50)]
#[verifier::spinoff_prover]
proof fn lemma_entries_roundtrip(es: Seq<IndexEntryView>, rest: Seq<u8>)
    requires
        forall|i: int|
            0 <= i < es.len() ==> encode_utf8(#[trigger] es[i].table).len() < 0x1_0000_0000
                && def_encodable(es[i].def),
    ensures
        entries_parse(entries_record(es) + rest, es.len()) == ParseOutcome::Done(
            es,
            entries_record(es).len() as int,
        ),
    decreases es.len(),
{
    if es.len() == 0 {
        assert(es =~= Seq::<IndexEntryView>::empty());
    } else {
        let e = es[0];
        let tail = es.drop_first();
        assert forall|i: int| 0 <= i < tail.len() implies encode_utf8(#[trigger] tail[i].table).len()
            < 0x1_0000_0000 && def_encodable(tail[i].def) by {
            assert(tail[i] == es[i + 1]);
        }
        lemma_entries_roundtrip(tail, rest);
        let r = entries_record(es) + rest;
        assert(r =~= entry_record(e) + (entries_record(tail) + rest));
        lemma_entry_roundtrip(e, entries_record(tail) + rest);
        let k = entry_record(e).len() as int;
        assert(r.skip(k) =~= entries_record(tail) + rest);
        assert(seq![e] + tail =~= es);
        assert((es.len() - 1) as nat == tail.len());
    }
}

/// Reading back a stored registry gives the registry.
#[verifier::rlimit(80)]
pub proof fn lemma_registry_roundtrip(reg: RegistryView)
    requires
        registry_encodable(reg),
    ensures
        registry_parse(registry_bytes(reg)) == ParseOutcome::Done(
            reg,
            registry_bytes(reg).len() as int,
        ),
{
    let b = registry_bytes(reg);
    lemma_pow256_values();
    lemma_be_bytes_len(reg.next_id as nat, 4);
    lemma_be_value_of_bytes(reg.next_id as nat, 4);
    lemma_be_bytes_len(reg.entries.len() % 0x1_0000_0000, 4);
    lemma_be_value_of_bytes(reg.entries.len() % 0x1_0000_0000, 4);
    assert(b.take(4) =~= be_bytes(reg.next_id as nat, 4));
    assert(b.subrange(4, 8) =~= be_bytes(reg.entries.len() % 0x1_0000_0000, 4));
    assert(b.skip(8) =~= entries_record(reg.entries) + Seq::<u8>::empty());
    lemma_entries_roundtrip(reg.entries, Seq::<u8>::empty());
    assert(reg.entries.len() % 0x1_0000_0000 == reg.entries.len());
}

/// No two entries are the same index (table and name), every id is below the
/// allocator, and no two entries share an id.
pub open spec fn registry_sound(reg: RegistryView) -> bool {
    &&& forall|i: int, j: int|
        0 <= i < j < reg.entries.len() ==> !(#[trigger] reg.entries[i].table
            == #[trigger] reg.entries[j].table && reg.entries[i].def.name == reg.entries[j].def.name)
    &&& forall|i: int| 0 <= i < reg.entries.len() ==> #[trigger] reg.entries[i].id < reg.next_id
    &&& forall|i: int, j: int|
        0 <= i < j < reg.entries.len() ==> #[trigger] reg.entries[i].id != #[trigger] reg.entries[j].id
}

/// After registering a new index, its stored registry reads back with the
/// index found under its table and name, holding the definition and the id
/// the allocator had; a sound registry stays sound.
pub proof fn lemma_create_then_lookup(reg: RegistryView, table: Seq<char>, def: IndexDefView)
    requires
        registry_encodable(reg),
        find_entry(reg.entries, table, def.name) is None,
        reg.next_id < u32::MAX,
        reg.entries.len() + 1 < 0x1_0000_0000,
        encode_utf8(table).len() < 0x1_0000_0000,
        def_encodable(def),
    ensures
        ({
            let after = registry_with(reg, table, def);
            &&& registry_parse(registry_bytes(after)) == ParseOutcome::Done(
                after,
                registry_bytes(after).len() as int,
            )
            &&& find_entry(after.entries, table, def.name) == Some(reg.entries.len() as int)
            &&& after.entries[reg.entries.len() as int].def == def
            &&& after.entries[reg.entries.len() as int].id == reg.next_id
            &&& registry_sound(reg) ==> registry_sound(after)
        }),
{
    let after = registry_with(reg, table, def);
    let n = reg.entries.len() as int;
    assert(registry_encodable(after)) by {
        assert forall|i: int| 0 <= i < after.entries.len() implies encode_utf8(
            #[trigger] after.entries[i].table,
        ).len() < 0x1_0000_0000 && def_encodable(after.entries[i].def) by {
            if i < n {
                assert(after.entries[i] == reg.entries[i]);
            }
        }
    }
    lemma_registry_roundtrip(after);
    assert(entry_is(after.entries[n], table, def.name));
    assert forall|j: int| 0 <= j < n implies !#[trigger] entry_is(after.entries[j], table, def.name) by {
        assert(after.entries[j] == reg.entries[j]);
        if entry_is(reg.entries[j], table, def.name) {
            assert(exists|i: int| 0 <= i < reg.entries.len() && #[trigger] entry_is(
                reg.entries[i],
                table,
                def.name,
            ));
        }
    }
    let c = choose|c: int|
        0 <= c < after.entries.len() && entry_is(after.entries[c], table, def.name) && forall|j: int|
            0 <= j < c ==> !#[trigger] entry_is(after.entries[j], table, def.name);
    if c < n {
        assert(!entry_is(after.entries[c], table, def.name));
    } else if c > n {
        assert(!entry_is(after.entries[n], table, def.name));
    }
    if registry_sound(reg) {
        assert forall|i: int, j: int| 0 <= i < j < after.entries.len() implies !(
        #[trigger] after.entries[i].table == #[trigger] after.entries[j].table
            && after.entries[i].def.name == after.entries[j].def.name) by {
            assert(after.entries[i] == reg.entries[i]);
            if j == n {
                if reg.entries[i].table == table && reg.entries[i].def.name == def.name {
                    assert(entry_is(reg.entries[i], table, def.name));
                    assert(exists|k: int| 0 <= k < reg.entries.len() && #[trigger] entry_is(
                        reg.entries[k],
                        table,
                        def.name,
                    ));
                }
            } else {
                assert(after.entries[j] == reg.entries[j]);
            }
        }
        assert forall|i: int| 0 <= i < after.entries.len() implies #[trigger] after.entries[i].id
            < after.next_id by {
            if i < n {
                assert(after.entries[i] == reg.entries[i]);
            }
        }
        assert forall|i: int, j: int| 0 <= i < j < after.entries.len() implies #[trigger] after.entries[
            i
        ].id != #[trigger] after.entries[j].id by {
            assert(after.entries[i] == reg.entries[i]);
            if j < n {
                assert(after.entries[j] == reg.entries[j]);
            }
        }
    }
}

/// In a sound registry, once an index is removed no entry is that index any
/// more, the allocator keeps its place (the removed id is never handed out
/// again), and the registry stays sound.
pub proof fn lemma_delete_then_lookup(reg: RegistryView, table: Seq<char>, name: Seq<char>)
    requires
        registry_sound(reg),
        find_entry(reg.entries, table, name) is Some,
    ensures
        ({
            let i = find_entry(reg.entries, table, name)->0;
            let after = registry_without(reg, i);
            &&& find_entry(after.entries, table, name) is None
            &&& after.next_id == reg.next_id
            &&& registry_sound(after)
        }),
{
    let i = find_entry(reg.entries, table, name)->0;
    let after = registry_without(reg, i);
    assert(entry_is(reg.entries[i], table, name));
    assert forall|k: int| 0 <= k < after.entries.len() implies !#[trigger] entry_is(
        after.entries[k],
        table,
        name,
    ) by {
        let src = if k < i {
            k
        } else {
            k + 1
        };
        assert(after.entries[k] == reg.entries[src]);
        if k < i {
            assert(!(reg.entries[k].table == reg.entries[i].table && reg.entries[k].def.name
                == reg.entries[i].def.name));
        } else {
            assert(!(reg.entries[i].table == reg.entries[k + 1].table && reg.entries[i].def.name
                == reg.entries[k + 1].def.name));
        }
    }
    assert forall|a: int, b: int| 0 <= a < b < after.entries.len() implies !(
    #[trigger] after.entries[a].table == #[trigger] after.entries[b].table
        && after.entries[a].def.name == after.entries[b].def.name) by {
        let sa = if a < i {
            a
        } else {
            a + 1
        };
        let sb = if b < i {
            b
        } else {
            b + 1
        };
        assert(after.entries[a] == reg.entries[sa]);
        assert(after.entries[b] == reg.entries[sb]);
        assert(!(reg.entries[sa].table == reg.entries[sb].table && reg.entries[sa].def.name
            == reg.entries[sb].def.name));
    }
    assert forall|k: int| 0 <= k < after.entries.len() implies #[trigger] after.entries[k].id
        < after.next_id by {
        let src = if k < i {
            k
        } else {
            k + 1
        };
        assert(after.entries[k] == reg.entries[src]);
    }
    assert forall|a: int, b: int| 0 <= a < b < after.entries.len() implies #[trigger] after.entries[
        a
    ].id != #[trigger] after.entries[b].id by {
        let sa = if a < i {
            a
        } else {
            a + 1
        };
        let sb = if b < i {
            b
        } else {
            b + 1
        };
        assert(after.entries[a] == reg.entries[sa]);
        assert(after.entries[b] == reg.entries[sb]);
        assert(reg.entries[sa].id != reg.entries[sb].id);
    }
}
/// One entry record followed by anything is skimmed to its table, its index
/// name, and the bytes after it.
#[verifier::rlimit(40)]
#[verifier::spinoff_prover]
proof fn lemma_entry_skim(e: IndexEntryView, after: Seq<u8>)
    requires
        encode_utf8(e.table).len() < 0x1_0000_0000,
        def_encodable(e.def),
    ensures
        ({
            let r = entry_record(e) + after;
            let a = str_field(e.table).len() as int;
            let k = def_bytes(e.def).len() as int;
            &&& str_parse(r) == Some((e.table, a))
            &&& r.len() >= a + 4
            &&& def_skim(r.skip(a + 4)) == Some((e.def.name, k))
            &&& r.skip(a + 4 + k) == after
        }),
{
    let r = entry_record(e) + after;
    let idb = be_bytes(e.id as nat, 4);
    let db = def_bytes(e.def);
    assert(r =~= str_field(e.table) + (idb + db + after));
    lemma_str_roundtrip(e.table, idb + db + after);
    lemma_pow256_values();
    lemma_be_bytes_len(e.id as nat, 4);
    let a = str_field(e.table).len() as int;
    assert(r.skip(a + 4) =~= db + after);
    lemma_def_skim_roundtrip(e.def, after);
    assert(r.skip(a + 4 + db.len()) =~= after);
}

/// Skimming entry records followed by anything finds exactly whether one of
/// the entries is the index sought.
#[verifier::rlimit(80)]
#[verifier::spinoff_prover]
proof fn lemma_scan_roundtrip(es: Seq<IndexEntryView>, rest: Seq<u8>, table: Seq<char>, name: Seq<char>)
    requires
        forall|i: int|
            0 <= i < es.len() ==> encode_utf8(#[trigger] es[i].table).len() < 0x1_0000_0000
                && def_encodable(es[i].def),
    ensures
        registry_scan(entries_record(es) + rest, es.len(), table, name) == Some(
            exists|i: int| 0 <= i < es.len() && #[trigger] entry_is(es[i], table, name),
        ),
    decreases es.len(),
{
    if es.len() > 0 {
        let e = es[0];
        let tail = es.drop_first();
        assert forall|i: int| 0 <= i < tail.len() implies encode_utf8(#[trigger] tail[i].table).len()
            < 0x1_0000_0000 && def_encodable(tail[i].def) by {
            assert(tail[i] == es[i + 1]);
        }
        lemma_scan_roundtrip(tail, rest, table, name);
        let after = entries_record(tail) + rest;
        assert(entries_record(es) + rest =~= entry_record(e) + after);
        lemma_entry_skim(e, after);
        assert((es.len() - 1) as nat == tail.len());
        if entry_is(e, table, name) {
            assert(entry_is(es[0], table, name));
        } else {
            if exists|i: int| 0 <= i < es.len() && #[trigger] entry_is(es[i], table, name) {
                let i = choose|i: int| 0 <= i < es.len() && #[trigger] entry_is(es[i], table, name);
                assert(tail[i - 1] == es[i]);
                assert(entry_is(tail[i - 1], table, name));
            }
            if exists|i: int| 0 <= i < tail.len() && #[trigger] entry_is(tail[i], table, name) {
                let i = choose|i: int| 0 <= i < tail.len() && #[trigger] entry_is(tail[i], table, name);
                assert(es[i + 1] == tail[i]);
                assert(entry_is(es[i + 1], table, name));
            }
        }
    }
}

/// The presence check agrees with the full lookup: skimming a stored
/// registry for an index finds it exactly when reading the registry back
/// and looking it up does.
pub proof fn lemma_has_agrees_with_lookup(reg: RegistryView, table: Seq<char>, name: Seq<char>)
    requires
        registry_encodable(reg),
    ensures
        registry_has_bytes(registry_bytes(reg), table, name) == Some(find_entry(reg.entries, table, name) is Some),
{
    let b = registry_bytes(reg);
    lemma_pow256_values();
    lemma_be_bytes_len(reg.next_id as nat, 4);
    lemma_be_bytes_len(reg.entries.len() % 0x1_0000_0000, 4);
    lemma_be_value_of_bytes(reg.entries.len() % 0x1_0000_0000, 4);
    assert(b.subrange(4, 8) =~= be_bytes(reg.entries.len() % 0x1_0000_0000, 4));
    assert(b.skip(8) =~= entries_record(reg.entries) + Seq::<u8>::empty());
    assert(reg.entries.len() % 0x1_0000_0000 == reg.entries.len());
    lemma_scan_roundtrip(reg.entries, Seq::<u8>::empty(), table, name);
}

/// Reading `n` entries gives exactly `n` entries.
proof fn lemma_entries_parse_len(r: Seq<u8>, n: nat)
    ensures
        entries_parse(r, n) matches ParseOutcome::Done(es, _) ==> es.len() == n,
    decreases n,
{
    if n > 0 {
        if let ParseOutcome::Done(e, k) = entry_parse(r) {
            lemma_entries_parse_len(r.skip(k), (n - 1) as nat);
        }
    }
}

/// A registry read from stored bytes holds at most `u32::MAX` entries: its
/// entry count is stored as a `u32`.
pub proof fn lemma_parsed_registry_bounded(b: Seq<u8>)
    ensures
        registry_parse(b) matches ParseOutcome::Done(reg, _) ==> reg.entries.len() <= u32::MAX,
{
    if b.len() >= 8 {
        lemma_entries_parse_len(b.skip(8), be_value(b.subrange(4, 8)));
        crate::bytes::lemma_be_value_bound(b.subrange(4, 8));
        lemma_pow256_values();
    }
}

} // verus!
