//! The definition of a secondary index and its registry encoding.

use crate::bytes::{be_bytes, be_value, lemma_be_bytes_len, lemma_be_value_of_bytes, lemma_pow256_values};
use crate::codec::{length_prefix, put_bytes, put_u32, Reader};
use crate::error::{corrupt, SdbError, SdbResult};
use crate::index::definitions::column::IndexColumn;
use crate::index::definitions::direction::{
    direction_byte, direction_of_byte, lemma_direction_roundtrip, Direction,
};
use crate::index::definitions::{read_string, str_field, str_parse, ParseOutcome};
use crate::ordered::{column_bytes, encode_scalar};
use crate::path::{lemma_path_roundtrip, path_ok, path_parse, path_text, SPath, SegmentView};
use crate::scalar::{utf8_str, Scalar};
use crate::text::str_eq;
use vstd::prelude::*;
use vstd::utf8::encode_utf8;

verus! {

/// A secondary index definition.
///
/// `pattern` is a path pattern selecting which nodes are indexed entities: a
/// slash-separated path where `*` matches any single child and every other
/// segment matches literally (`users/*` indexes every direct child of
/// `users`; the empty string indexes the table root). `columns` form the sort
/// key, each a path relative to a matched entity, in priority order. A
/// `unique` index rejects a second entity with the same column tuple.
#[derive(Clone, Debug)]
pub struct IndexDef {
    name: String,
    pattern: String,
    columns: Vec<IndexColumn>,
    unique: bool,
}

/// A column in plain values: its path and direction.
pub type ColumnView = (Seq<SegmentView>, Direction);

/// The mathematical form of an [`IndexDef`].
pub struct IndexDefView {
    pub name: Seq<char>,
    pub pattern: Seq<char>,
    pub columns: Seq<ColumnView>,
    pub unique: bool,
}

impl View for IndexDef {
    type V = IndexDefView;

    closed spec fn view(&self) -> IndexDefView {
        IndexDefView {
            name: self.name@,
            pattern: self.pattern@,
            columns: self.columns@.map_values(|c: IndexColumn| c@),
            unique: self.unique,
        }
    }
}

/// The record of one column: its path text, then its direction byte.
pub open spec fn column_record(c: ColumnView) -> Seq<u8> {
    str_field(path_text(c.0)) + seq![direction_byte(c.1)]
}

/// The records of a run of columns, in order.
pub open spec fn columns_record(cs: Seq<ColumnView>) -> Seq<u8>
    decreases cs.len(),
{
    if cs.len() == 0 {
        Seq::empty()
    } else {
        column_record(cs[0]) + columns_record(cs.drop_first())
    }
}

/// The registry encoding of a definition: name, pattern, the unique flag, the
/// column count (as a `u32`) and the columns.
pub open spec fn def_bytes(d: IndexDefView) -> Seq<u8> {
    str_field(d.name) + str_field(d.pattern) + seq![if d.unique { 1u8 } else { 0u8 }] + be_bytes(
        d.columns.len() % 0x1_0000_0000,
        4,
    ) + columns_record(d.columns)
}

/// `o` with `pre` (spanning `k` bytes) in front of what it read.
pub open spec fn prepend_columns(
    pre: Seq<ColumnView>,
    k: int,
    o: ParseOutcome<Seq<ColumnView>>,
) -> ParseOutcome<Seq<ColumnView>> {
    match o {
        ParseOutcome::Done(cs, m) => ParseOutcome::Done(pre + cs, k + m),
        ParseOutcome::Corrupt => ParseOutcome::Corrupt,
        ParseOutcome::BadPath => ParseOutcome::BadPath,
    }
}

/// Reading `n` column records from the front of `r`.
pub open spec fn columns_parse(r: Seq<u8>, n: nat) -> ParseOutcome<Seq<ColumnView>>
    decreases n,
{
    if n == 0 {
        ParseOutcome::Done(Seq::empty(), 0)
    } else {
        match str_parse(r) {
            None => ParseOutcome::Corrupt,
            Some((text, k)) => match path_parse(text) {
                None => ParseOutcome::BadPath,
                Some(p) => if r.len() < k + 1 {
                    ParseOutcome::Corrupt
                } else {
                    match direction_of_byte(r[k]) {
                        None => ParseOutcome::Corrupt,
                        Some(d) => prepend_columns(
                            seq![(p, d)],
                            k + 1,
                            columns_parse(r.skip(k + 1), (n - 1) as nat),
                        ),
                    }
                },
            },
        }
    }
}

/// Reading a definition from the front of `r`.
pub open spec fn def_parse(r: Seq<u8>) -> ParseOutcome<IndexDefView> {
    match str_parse(r) {
        None => ParseOutcome::Corrupt,
        Some((name, a)) => match str_parse(r.skip(a)) {
            None => ParseOutcome::Corrupt,
            Some((pattern, b)) => {
                let at = a + b;
                if r.len() < at + 5 {
                    ParseOutcome::Corrupt
                } else {
                    let unique = r[at] != 0;
                    let count = be_value(r.subrange(at + 1, at + 5));
                    match columns_parse(r.skip(at + 5), count) {
                        ParseOutcome::Done(cs, m) => ParseOutcome::Done(
                            IndexDefView { name, pattern, columns: cs, unique },
                            at + 5 + m,
                        ),
                        ParseOutcome::Corrupt => ParseOutcome::Corrupt,
                        ParseOutcome::BadPath => ParseOutcome::BadPath,
                    }
                }
            },
        },
    }
}

/// Skipping `n` column records at the front of `r` without reading their
/// text or direction: the bytes they span, or `None` when truncated.
pub open spec fn columns_skim(r: Seq<u8>, n: nat) -> Option<int>
    decreases n,
{
    if n == 0 {
        Some(0)
    } else if r.len() >= 4 && 5 + be_value(r.take(4)) <= r.len() {
        let k = 5 + be_value(r.take(4)) as int;
        match columns_skim(r.skip(k), (n - 1) as nat) {
            Some(m) => Some(k + m),
            None => None,
        }
    } else {
        None
    }
}

/// Reading only the name of a definition from the front of `r` and skipping
/// the rest of it: the name and the bytes the whole record spans, or `None`
/// when the record is truncated or the name is not UTF-8.
pub open spec fn def_skim(r: Seq<u8>) -> Option<(Seq<char>, int)> {
    match str_parse(r) {
        None => None,
        Some((name, a)) => {
            let q = r.skip(a);
            if q.len() >= 4 && 4 + be_value(q.take(4)) + 5 <= q.len() {
                let b = 4 + be_value(q.take(4)) as int;
                let count = be_value(q.subrange(b + 1, b + 5));
                match columns_skim(q.skip(b + 5), count) {
                    Some(m) => Some((name, a + b + 5 + m)),
                    None => None,
                }
            } else {
                None
            }
        },
    }
}

/// A definition every part of which the registry encoding carries back: each
/// string under 2^32 bytes, fewer than 2^32 columns, and column paths whose
/// names can be written as path text.
pub open spec fn def_encodable(d: IndexDefView) -> bool {
    &&& encode_utf8(d.name).len() < 0x1_0000_0000
    &&& encode_utf8(d.pattern).len() < 0x1_0000_0000
    &&& d.columns.len() < 0x1_0000_0000
    &&& forall|i: int|
        0 <= i < d.columns.len() ==> path_ok(#[trigger] d.columns[i].0) && encode_utf8(
            path_text(d.columns[i].0),
        ).len() < 0x1_0000_0000
}

impl IndexDef {
    /// A definition with these parts.
    pub fn new(name: String, pattern: String, columns: Vec<IndexColumn>, unique: bool) -> (d:
        IndexDef)
        ensures
            d@ == (IndexDefView {
                name: name@,
                pattern: pattern@,
                columns: columns@.map_values(|c: IndexColumn| c@),
                unique,
            }),
    {
        IndexDef { name, pattern, columns, unique }
    }

    /// The index name (unique per table).
    pub fn name(&self) -> (s: &str)
        ensures
            s@ == self@.name,
    {
        self.name.as_str()
    }

    /// The path pattern selecting indexed entities.
    pub fn pattern(&self) -> (s: &str)
        ensures
            s@ == self@.pattern,
    {
        self.pattern.as_str()
    }

    /// The sort-key columns, in priority order.
    pub fn columns(&self) -> (c: &Vec<IndexColumn>)
        ensures
            c@.map_values(|x: IndexColumn| x@) == self@.columns,
    {
        &self.columns
    }

    /// Whether the column tuple must be unique across entities.
    pub fn unique(&self) -> (u: bool)
        ensures
            u == self@.unique,
    {
        self.unique
    }

    /// A new definition with the same parts.
    pub fn duplicate(&self) -> (d: IndexDef)
        ensures
            d@ == self@,
    {
        let mut columns: Vec<IndexColumn> = Vec::new();
        let mut i: usize = 0;
        while i < self.columns.len()
            invariant
                i <= self.columns@.len(),
                columns@.map_values(|c: IndexColumn| c@) == self@.columns.take(i as int),
                self@.columns == self.columns@.map_values(|c: IndexColumn| c@),
            decreases self.columns@.len() - i,
        {
            let c = self.columns[i].duplicate();
            let ghost pre = columns@;
            columns.push(c);
            assert(columns@.map_values(|c: IndexColumn| c@) =~= pre.map_values(|c: IndexColumn| c@).push(c@));
            i = i + 1;
            assert(columns@.map_values(|c: IndexColumn| c@) =~= self@.columns.take(i as int));
        }
        assert(self@.columns.take(i as int) =~= self@.columns);
        IndexDef {
            name: self.name.clone(),
            pattern: self.pattern.clone(),
            columns,
            unique: self.unique,
        }
    }

    /// Whether `other` is the same definition: same name, pattern, columns and
    /// uniqueness.
    pub fn same_as(&self, other: &IndexDef) -> (b: bool)
        ensures
            b == (self@ == other@),
    {
        if !str_eq(self.name.as_str(), other.name.as_str()) || !str_eq(
            self.pattern.as_str(),
            other.pattern.as_str(),
        ) || self.unique
            != other.unique || self.columns.len() != other.columns.len() {
            proof {
                if self.columns@.len() != other.columns@.len() {
                    assert(self@.columns.len() != other@.columns.len());
                }
            }
            return false;
        }
        let mut i: usize = 0;
        while i < self.columns.len()
            invariant
                self.columns@.len() == other.columns@.len(),
                i <= self.columns@.len(),
                forall|j: int| 0 <= j < i ==> #[trigger] self@.columns[j] == other@.columns[j],
            decreases self.columns@.len() - i,
        {
            if !self.columns[i].same_as(&other.columns[i]) {
                proof {
                    assert(self@.columns[i as int] != other@.columns[i as int]);
                }
                return false;
            }
            i = i + 1;
        }
        proof {
            assert(self@.columns =~= other@.columns);
        }
        true
    }

    /// Appends the registry encoding of this definition to `buf`.
    pub fn encode(&self, buf: &mut Vec<u8>)
        ensures
            final(buf)@ == old(buf)@ + def_bytes(self@),
    {
        put_bytes(buf, self.name.as_str().as_bytes());
        put_bytes(buf, self.pattern.as_str().as_bytes());
        buf.push(if self.unique { 1u8 } else { 0u8 });
        let n = self.columns.len();
        put_u32(buf, ((n as u64) % 0x1_0000_0000) as u32);
        let ghost head = buf@;
        let ghost cols = self@.columns;
        let mut i: usize = 0;
        while i < self.columns.len()
            invariant
                i <= self.columns@.len(),
                cols == self.columns@.map_values(|c: IndexColumn| c@),
                buf@ == head + columns_record(cols.take(i as int)),
            decreases self.columns@.len() - i,
        {
            let column = &self.columns[i];
            let text = column.path().to_string();
            put_bytes(buf, text.as_str().as_bytes());
            buf.push(column.direction().to_byte());
            proof {
                lemma_columns_record_push(cols, i as int);
                assert(cols[i as int] == column@);
                assert(buf@ =~= head + columns_record(cols.take(i + 1)));
            }
            i = i + 1;
        }
        proof {
            assert(cols.take(i as int) =~= cols);
            assert(final(buf)@ =~= old(buf)@ + def_bytes(self@));
        }
    }

    /// Reads only the name of an encoded definition, advancing `r` past the
    /// whole record; the pattern, flag and columns are skipped unread.
    pub fn decode_name<'a>(r: &mut Reader<'a>) -> (res: SdbResult<&'a str>)
        ensures
            match def_skim(old(r)@) {
                Some((name, n)) => res matches Ok(s) && s@ == name && final(r)@ == old(r)@.skip(n),
                None => res matches Err(e) && e is Corrupt,
            },
    {
        let ghost start = r@;
        let bytes = r.bytes()?;
        let name = match utf8_str(bytes) {
            Some(s) => s,
            None => {
                return Err(corrupt("invalid utf-8 in index definition"));
            },
        };
        let ghost a = 4 + be_value(start.take(4)) as int;
        assert(r@ =~= start.skip(a));
        let ghost q = r@;
        let _pattern = r.bytes()?;
        let ghost b = 4 + be_value(q.take(4)) as int;
        let _unique = match r.u8() {
            Ok(u) => u,
            Err(e) => {
                return Err(e);
            },
        };
        let count = match r.u32() {
            Ok(c) => c,
            Err(e) => {
                return Err(e);
            },
        };
        proof {
            assert(q.skip(b).skip(1).take(4) =~= q.subrange(b + 1, b + 5));
            assert(r@ =~= q.skip(b + 5));
            assert(q.skip(b + 5) =~= start.skip(a + b + 5));
        }
        let ghost cols = r@;
        let ghost mut used: int = 0;
        let mut i: u32 = 0;
        while i < count
            invariant
                i <= count,
                0 <= used <= cols.len(),
                r@ == cols.skip(used),
                def_skim(old(r)@) == match columns_skim(cols, count as nat) {
                    Some(m) => Some((name@, a + b + 5 + m)),
                    None => None::<(Seq<char>, int)>,
                },
                old(r)@.skip(a + b + 5) == cols,
                columns_skim(cols, count as nat) == match columns_skim(r@, (count - i) as nat) {
                    Some(m) => Some(used + m),
                    None => None::<int>,
                },
            decreases count - i,
        {
            let ghost here = r@;
            let _path = r.bytes()?;
            let _direction = match r.u8() {
                Ok(d) => d,
                Err(e) => {
                    return Err(e);
                },
            };
            proof {
                let k = 5 + be_value(here.take(4)) as int;
                assert(r@ =~= here.skip(k));
                assert(r@ =~= cols.skip(used + k));
                used = used + k;
            }
            i = i + 1;
        }
        Ok(name)
    }

    /// Decodes a definition written by [`IndexDef::encode`].
    pub fn decode(r: &mut Reader<'_>) -> (res: SdbResult<IndexDef>)
        ensures
            match def_parse(old(r)@) {
                ParseOutcome::Done(d, n) => res matches Ok(x) && x@ == d && final(r)@ == old(
                    r,
                )@.skip(n),
                ParseOutcome::Corrupt => res matches Err(e) && e is Corrupt,
                ParseOutcome::BadPath => res matches Err(e) && e is InvalidPath,
            },
    {
        let ghost start = r@;
        let name = read_string(r)?;
        let ghost a = 4 + be_value(start.take(4)) as int;
        let ghost q = r@;
        let pattern = read_string(r)?;
        let ghost b = 4 + be_value(q.take(4)) as int;
        proof {
            assert(r@ =~= start.skip(a + b));
        }
        let flag = match r.u8() {
            Ok(u) => u,
            Err(e) => {
                return Err(e);
            },
        };
        let count = match r.u32() {
            Ok(c) => c,
            Err(e) => {
                return Err(e);
            },
        };
        proof {
            assert(start.skip(a + b).skip(1).take(4) =~= start.subrange(a + b + 1, a + b + 5));
            assert(r@ =~= start.skip(a + b + 5));
        }
        let ghost cols = r@;
        let ghost mut used: int = 0;
        let mut columns: Vec<IndexColumn> = Vec::new();
        let mut i: u32 = 0;
        while i < count
            invariant
                i <= count,
                0 <= used <= cols.len(),
                r@ == cols.skip(used),
                def_parse(old(r)@) == def_finish(
                    name@,
                    pattern@,
                    flag != 0,
                    a + b + 5,
                    columns_parse(cols, count as nat),
                ),
                columns_parse(cols, count as nat) == prepend_columns(
                    columns@.map_values(|c: IndexColumn| c@),
                    used,
                    columns_parse(r@, (count - i) as nat),
                ),
            decreases count - i,
        {
            let ghost here = r@;
            let text = read_string(r)?;
            let path = SPath::parse(text.as_str())?;
            let byte = match r.u8() {
                Ok(u) => u,
                Err(e) => {
                    return Err(e);
                },
            };
            let direction = Direction::from_byte(byte)?;
            let column = IndexColumn::new(path, direction);
            let ghost pre = columns@.map_values(|c: IndexColumn| c@);
            columns.push(column);
            proof {
                let k = 4 + be_value(here.take(4)) as int;
                assert(here.skip(k)[0] == here[k]);
                assert(r@ =~= here.skip(k + 1));
                assert(r@ =~= cols.skip(used + k + 1));
                assert(columns@.map_values(|c: IndexColumn| c@) =~= pre.push(column@));
                lemma_prepend_columns(pre, used, column@, k + 1, columns_parse(r@, (count - i - 1) as nat));
                used = used + k + 1;
            }
            i = i + 1;
        }
        proof {
            assert(columns@.map_values(|c: IndexColumn| c@) + Seq::<ColumnView>::empty()
                =~= columns@.map_values(|c: IndexColumn| c@));
        }
        Ok(IndexDef { name, pattern, columns, unique: flag != 0 })
    }

    /// Encodes `values` (one per column, in column order; extra values or
    /// columns are ignored) into the order-preserving byte prefix an index key
    /// starts with, each in its column's direction.
    pub fn encode_columns(&self, values: &[Scalar]) -> (cols: Vec<u8>)
        ensures
            cols@ == columns_key(
                values@.map_values(|v: Scalar| v@),
                self@.columns,
                min_len(values@.len(), self@.columns.len()),
            ),
    {
        let mut cols: Vec<u8> = Vec::new();
        let n = if values.len() < self.columns.len() {
            values.len()
        } else {
            self.columns.len()
        };
        let mut i: usize = 0;
        while i < n
            invariant
                i <= n,
                n == min_len(values@.len(), self@.columns.len()),
                n <= values@.len(),
                n <= self.columns@.len(),
                self@.columns == self.columns@.map_values(|c: IndexColumn| c@),
                cols@ == columns_key(
                    values@.map_values(|v: Scalar| v@),
                    self@.columns,
                    i as nat,
                ),
            decreases n - i,
        {
            let desc = self.columns[i].direction() == Direction::Desc;
            encode_scalar(&mut cols, &values[i], desc);
            i = i + 1;
        }
        cols
    }
}

/// A definition with these parts once its columns are read, spanning `off`
/// bytes before them.
pub open spec fn def_finish(
    name: Seq<char>,
    pattern: Seq<char>,
    unique: bool,
    off: int,
    o: ParseOutcome<Seq<ColumnView>>,
) -> ParseOutcome<IndexDefView> {
    match o {
        ParseOutcome::Done(cs, m) => ParseOutcome::Done(
            IndexDefView { name, pattern, columns: cs, unique },
            off + m,
        ),
        ParseOutcome::Corrupt => ParseOutcome::Corrupt,
        ParseOutcome::BadPath => ParseOutcome::BadPath,
    }
}

/// The smaller of two lengths.
pub open spec fn min_len(a: nat, b: nat) -> nat {
    if a < b {
        a
    } else {
        b
    }
}

/// The first `n` values, each encoded in its column's direction.
pub open spec fn columns_key(values: Seq<crate::scalar::ScalarView>, columns: Seq<ColumnView>, n: nat) -> Seq<
    u8,
>
    decreases n,
{
    if n == 0 {
        Seq::empty()
    } else {
        columns_key(values, columns, (n - 1) as nat) + column_bytes(
            values[n - 1],
            columns[n - 1].1 == Direction::Desc,
        )
    }
}

/// What reading columns takes lies within the bytes.
proof fn lemma_columns_parse_bound(r: Seq<u8>, n: nat)
    ensures
        columns_parse(r, n) matches ParseOutcome::Done(_, m) ==> 0 <= m <= r.len(),
    decreases n,
{
    if n > 0 {
        match str_parse(r) {
            Some((text, k)) => {
                if r.len() >= k + 1 {
                    lemma_columns_parse_bound(r.skip(k + 1), (n - 1) as nat);
                }
            },
            None => {},
        }
    }
}

/// What reading a definition takes lies within the bytes.
pub proof fn lemma_def_parse_bound(r: Seq<u8>)
    ensures
        def_parse(r) matches ParseOutcome::Done(_, n) ==> 0 <= n <= r.len(),
{
    match str_parse(r) {
        Some((name, a)) => {
            match str_parse(r.skip(a)) {
                Some((pattern, b)) => {
                    if r.len() >= a + b + 5 {
                        lemma_columns_parse_bound(
                            r.skip(a + b + 5),
                            be_value(r.subrange(a + b + 1, a + b + 5)),
                        );
                    }
                },
                None => {},
            }
        },
        None => {},
    }
}

/// What skimming columns takes lies within the bytes.
proof fn lemma_columns_skim_bound(r: Seq<u8>, n: nat)
    ensures
        columns_skim(r, n) matches Some(m) ==> 0 <= m <= r.len(),
    decreases n,
{
    if n > 0 && r.len() >= 4 && 5 + be_value(r.take(4)) <= r.len() {
        lemma_columns_skim_bound(r.skip(5 + be_value(r.take(4)) as int), (n - 1) as nat);
    }
}

/// What skimming a definition takes lies within the bytes.
pub proof fn lemma_def_skim_bound(r: Seq<u8>)
    ensures
        def_skim(r) matches Some((_, n)) ==> 0 <= n <= r.len(),
{
    match str_parse(r) {
        Some((name, a)) => {
            let q = r.skip(a);
            if q.len() >= 4 && 4 + be_value(q.take(4)) + 5 <= q.len() {
                let b = 4 + be_value(q.take(4)) as int;
                lemma_columns_skim_bound(q.skip(b + 5), be_value(q.subrange(b + 1, b + 5)));
            }
        },
        None => {},
    }
}

proof fn lemma_prepend_columns(
    pre: Seq<ColumnView>,
    used: int,
    c: ColumnView,
    k: int,
    o: ParseOutcome<Seq<ColumnView>>,
)
    ensures
        prepend_columns(pre, used, prepend_columns(seq![c], k, o)) == prepend_columns(
            pre.push(c),
            used + k,
            o,
        ),
{
    match o {
        ParseOutcome::Done(cs, m) => {
            assert(pre + (seq![c] + cs) =~= pre.push(c) + cs);
        },
        _ => {},
    }
}

proof fn lemma_columns_record_push(cs: Seq<ColumnView>, i: int)
    requires
        0 <= i < cs.len(),
    ensures
        columns_record(cs.take(i + 1)) == columns_record(cs.take(i)) + column_record(cs[i]),
    decreases i,
{
    if i == 0 {
        assert(cs.take(1).drop_first() =~= Seq::<ColumnView>::empty());
        assert(cs.take(0) =~= Seq::<ColumnView>::empty());
        assert(column_record(cs[0]) + Seq::<u8>::empty() =~= column_record(cs[0]));
    } else {
        lemma_columns_record_push(cs.drop_first(), i - 1);
        assert(cs.take(i + 1).drop_first() =~= cs.drop_first().take(i));
        assert(cs.take(i).drop_first() =~= cs.drop_first().take(i - 1));
        assert(cs.take(i + 1)[0] == cs[0]);
        assert(cs.take(i)[0] == cs[0]);
        assert(column_record(cs[0]) + (columns_record(cs.drop_first().take(i - 1)) + column_record(
            cs[i],
        )) =~= column_record(cs[0]) + columns_record(cs.drop_first().take(i - 1)) + column_record(
            cs[i],
        ));
    }
}


/// Column records followed by anything read back as the columns.
proof fn lemma_columns_roundtrip(cs: Seq<ColumnView>, rest: Seq<u8>)
    requires
        forall|i: int|
            0 <= i < cs.len() ==> path_ok(#[trigger] cs[i].0) && encode_utf8(path_text(cs[i].0)).len()
                < 0x1_0000_0000,
    ensures
        columns_parse(columns_record(cs) + rest, cs.len()) == ParseOutcome::Done(
            cs,
            columns_record(cs).len() as int,
        ),
    decreases cs.len(),
{
    if cs.len() > 0 {
        let c = cs[0];
        let tail = cs.drop_first();
        assert forall|i: int| 0 <= i < tail.len() implies path_ok(#[trigger] tail[i].0) && encode_utf8(
            path_text(tail[i].0),
        ).len() < 0x1_0000_0000 by {
            assert(tail[i] == cs[i + 1]);
        }
        lemma_columns_roundtrip(tail, rest);
        let text = path_text(c.0);
        let r = columns_record(cs) + rest;
        let after = seq![direction_byte(c.1)] + (columns_record(tail) + rest);
        assert(r =~= str_field(text) + after);
        crate::index::definitions::lemma_str_roundtrip(text, after);
        lemma_path_roundtrip(c.0);
        let k = str_field(text).len() as int;
        assert(r[k] == direction_byte(c.1));
        lemma_direction_roundtrip(c.1);
        assert(r.skip(k + 1) =~= columns_record(tail) + rest);
        assert(seq![(c.0, c.1)] + tail =~= cs);
        assert(c == (c.0, c.1));
        assert(str_parse(r) == Some((text, k)));
        assert(path_parse(text) == Some(c.0));
        assert(direction_of_byte(r[k]) == Some(c.1));
        assert(columns_record(cs) == column_record(c) + columns_record(tail));
        assert((cs.len() - 1) as nat == tail.len());
        assert(columns_parse(r.skip(k + 1), tail.len()) == ParseOutcome::Done(
            tail,
            columns_record(tail).len() as int,
        ));
        assert(columns_parse(r, cs.len()) == prepend_columns(
            seq![(c.0, c.1)],
            k + 1,
            columns_parse(r.skip(k + 1), tail.len()),
        ));
    } else {
        assert(cs =~= Seq::<ColumnView>::empty());
    }
}

/// Reading back the registry encoding of a definition gives the definition,
/// whatever follows it.
#[verifier::rlimit(60)]
pub proof fn lemma_def_roundtrip(d: IndexDefView, rest: Seq<u8>)
    requires
        def_encodable(d),
    ensures
        def_parse(def_bytes(d) + rest) == ParseOutcome::Done(d, def_bytes(d).len() as int),
{
    let r = def_bytes(d) + rest;
    let fname = str_field(d.name);
    let fpat = str_field(d.pattern);
    let flag: u8 = if d.unique { 1u8 } else { 0u8 };
    let count = be_bytes(d.columns.len() % 0x1_0000_0000, 4);
    let cols = columns_record(d.columns);
    crate::index::definitions::lemma_str_roundtrip(d.name, fpat + seq![flag] + count + cols + rest);
    assert(r =~= fname + (fpat + seq![flag] + count + cols + rest));
    let a = fname.len() as int;
    assert(r.skip(a) =~= fpat + (seq![flag] + count + cols + rest));
    crate::index::definitions::lemma_str_roundtrip(d.pattern, seq![flag] + count + cols + rest);
    let b = fpat.len() as int;
    lemma_pow256_values();
    lemma_be_bytes_len(d.columns.len() % 0x1_0000_0000, 4);
    lemma_be_value_of_bytes(d.columns.len() % 0x1_0000_0000, 4);
    assert(r[a + b] == flag);
    assert(r.subrange(a + b + 1, a + b + 5) =~= count);
    assert(r.skip(a + b + 5) =~= cols + rest);
    lemma_columns_roundtrip(d.columns, rest);
    assert(d.columns.len() % 0x1_0000_0000 == d.columns.len());
}
/// Column records followed by anything are skipped exactly.
proof fn lemma_columns_skim_roundtrip(cs: Seq<ColumnView>, rest: Seq<u8>)
    requires
        forall|i: int|
            0 <= i < cs.len() ==> encode_utf8(path_text(#[trigger] cs[i].0)).len() < 0x1_0000_0000,
    ensures
        columns_skim(columns_record(cs) + rest, cs.len()) == Some(columns_record(cs).len() as int),
    decreases cs.len(),
{
    if cs.len() > 0 {
        let c = cs[0];
        let tail = cs.drop_first();
        assert forall|i: int| 0 <= i < tail.len() implies encode_utf8(path_text(#[trigger] tail[i].0)).len()
            < 0x1_0000_0000 by {
            assert(tail[i] == cs[i + 1]);
        }
        lemma_columns_skim_roundtrip(tail, rest);
        let text = path_text(c.0);
        let u = encode_utf8(text);
        let r = columns_record(cs) + rest;
        lemma_pow256_values();
        lemma_be_bytes_len(u.len(), 4);
        lemma_be_value_of_bytes(u.len(), 4);
        assert(r =~= str_field(text) + (seq![direction_byte(c.1)] + (columns_record(tail) + rest)));
        assert(r.take(4) =~= be_bytes(u.len(), 4));
        let k = 5 + u.len() as int;
        assert(r.skip(k) =~= columns_record(tail) + rest);
        assert((cs.len() - 1) as nat == tail.len());
    }
}

/// A definition's record followed by anything is skimmed to its name and
/// exact span.
#[verifier::rlimit(60)]
#[verifier::spinoff_prover]
pub proof fn lemma_def_skim_roundtrip(d: IndexDefView, rest: Seq<u8>)
    requires
        def_encodable(d),
    ensures
        def_skim(def_bytes(d) + rest) == Some((d.name, def_bytes(d).len() as int)),
{
    let r = def_bytes(d) + rest;
    let fname = str_field(d.name);
    let fpat = str_field(d.pattern);
    let flag: u8 = if d.unique { 1u8 } else { 0u8 };
    let count = be_bytes(d.columns.len() % 0x1_0000_0000, 4);
    let cols = columns_record(d.columns);
    crate::index::definitions::lemma_str_roundtrip(d.name, fpat + seq![flag] + count + cols + rest);
    assert(r =~= fname + (fpat + seq![flag] + count + cols + rest));
    let a = fname.len() as int;
    let q = r.skip(a);
    assert(q =~= fpat + (seq![flag] + count + cols + rest));
    let pu = encode_utf8(d.pattern);
    lemma_pow256_values();
    lemma_be_bytes_len(pu.len(), 4);
    lemma_be_value_of_bytes(pu.len(), 4);
    assert(q.take(4) =~= be_bytes(pu.len(), 4));
    let b = 4 + pu.len() as int;
    lemma_be_bytes_len(d.columns.len() % 0x1_0000_0000, 4);
    lemma_be_value_of_bytes(d.columns.len() % 0x1_0000_0000, 4);
    assert(q.subrange(b + 1, b + 5) =~= count);
    assert(q.skip(b + 5) =~= cols + rest);
    assert forall|i: int| 0 <= i < d.columns.len() implies encode_utf8(path_text(#[trigger] d.columns[i].0)).len()
        < 0x1_0000_0000 by {}
    lemma_columns_skim_roundtrip(d.columns, rest);
    assert(d.columns.len() % 0x1_0000_0000 == d.columns.len());
}
} // verus!
