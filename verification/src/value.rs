//! In-memory documents: a tree of objects, lists and scalar leaves, as a read
//! returns it and as an export renders it.

use crate::bytes::{bytes_eq, bytes_lt, lemma_lex_asym, lemma_lex_total, lemma_lex_transitive, lex_lt};
use crate::export::scalar::{float_text_free, scalar_is_renderable, scalar_renderable};
use crate::path::{SPath, Segment, SegmentView};
use crate::scalar::Scalar;
use vstd::prelude::*;
use vstd::utf8::{encode_utf8, encode_utf8_decode_utf8};

verus! {

/// A document subtree held in memory.
#[derive(Debug)]
pub enum Value {
    /// A scalar leaf.
    Leaf(Scalar),
    /// An ordered list of elements.
    List(Vec<Value>),
    /// An object: its fields, by name, in strictly increasing (bytewise) name
    /// order; [`Value::object`] builds one from fields in any order.
    Node(Vec<(String, Value)>),
}

/// Every leaf of `v` can be rendered (see [`scalar_renderable`]), and every
/// object's fields are in strictly increasing name order, so they come out
/// sorted.
pub open spec fn renderable(v: Value) -> bool
    decreases v, 0nat,
{
    match v {
        Value::Leaf(s) => scalar_renderable(s@),
        Value::List(items) => items_renderable(items@, items@.len()),
        Value::Node(entries) => keys_sorted(entries@) && entries_renderable(entries@, entries@.len()),
    }
}

/// The first `n` items are renderable.
pub open spec fn items_renderable(items: Seq<Value>, n: nat) -> bool
    decreases items, n,
{
    if n == 0 || n > items.len() {
        true
    } else {
        items_renderable(items, (n - 1) as nat) && renderable(items[n - 1])
    }
}

/// The values of the first `n` fields are renderable.
pub open spec fn entries_renderable(entries: Seq<(String, Value)>, n: nat) -> bool
    decreases entries, n,
{
    if n == 0 || n > entries.len() {
        true
    } else {
        entries_renderable(entries, (n - 1) as nat) && renderable(entries[n - 1].1)
    }
}

proof fn lemma_items_renderable(items: Seq<Value>, n: nat, k: int)
    requires
        items_renderable(items, n),
        0 <= k < n <= items.len(),
    ensures
        renderable(items[k]),
    decreases n,
{
    if k < n - 1 {
        lemma_items_renderable(items, (n - 1) as nat, k);
    }
}

proof fn lemma_entries_renderable(entries: Seq<(String, Value)>, n: nat, k: int)
    requires
        entries_renderable(entries, n),
        0 <= k < n <= entries.len(),
    ensures
        renderable(entries[k].1),
    decreases n,
{
    if k < n - 1 {
        lemma_entries_renderable(entries, (n - 1) as nat, k);
    }
}

/// The children of a renderable value are renderable.
pub proof fn lemma_renderable_children(v: Value)
    requires
        renderable(v),
    ensures
        v matches Value::List(items) ==> forall|k: int|
            0 <= k < items@.len() ==> #[trigger] renderable(items@[k]),
        v matches Value::Node(entries) ==> forall|k: int|
            0 <= k < entries@.len() ==> #[trigger] renderable(entries@[k].1),
{
    match v {
        Value::List(items) => {
            assert forall|k: int| 0 <= k < items@.len() implies #[trigger] renderable(items@[k]) by {
                lemma_items_renderable(items@, items@.len(), k);
            }
        },
        Value::Node(entries) => {
            assert forall|k: int| 0 <= k < entries@.len() implies #[trigger] renderable(
                entries@[k].1,
            ) by {
                lemma_entries_renderable(entries@, entries@.len(), k);
            }
        },
        _ => {},
    }
}

/// No leaf of `v` needs the float renderer (see [`float_text_free`]).
pub open spec fn float_free(v: Value) -> bool
    decreases v, 0nat,
{
    match v {
        Value::Leaf(s) => float_text_free(s@),
        Value::List(items) => items_float_free(items@, items@.len()),
        Value::Node(entries) => entries_float_free(entries@, entries@.len()),
    }
}

/// The first `n` items are float-free.
pub open spec fn items_float_free(items: Seq<Value>, n: nat) -> bool
    decreases items, n,
{
    if n == 0 || n > items.len() {
        true
    } else {
        items_float_free(items, (n - 1) as nat) && float_free(items[n - 1])
    }
}

/// The values of the first `n` fields are float-free.
pub open spec fn entries_float_free(entries: Seq<(String, Value)>, n: nat) -> bool
    decreases entries, n,
{
    if n == 0 || n > entries.len() {
        true
    } else {
        entries_float_free(entries, (n - 1) as nat) && float_free(entries[n - 1].1)
    }
}

/// Every item is float-free.
pub open spec fn all_float_free(items: Seq<Value>) -> bool {
    forall|k: int| 0 <= k < items.len() ==> #[trigger] float_free(items[k])
}

/// Every field's value is float-free.
pub open spec fn fields_float_free(entries: Seq<(String, Value)>) -> bool {
    forall|k: int| 0 <= k < entries.len() ==> #[trigger] float_free(entries[k].1)
}

proof fn lemma_items_float_free(items: Seq<Value>, n: nat, k: int)
    requires
        items_float_free(items, n),
        0 <= k < n <= items.len(),
    ensures
        float_free(items[k]),
    decreases n,
{
    if k < n - 1 {
        lemma_items_float_free(items, (n - 1) as nat, k);
    }
}

proof fn lemma_entries_float_free(entries: Seq<(String, Value)>, n: nat, k: int)
    requires
        entries_float_free(entries, n),
        0 <= k < n <= entries.len(),
    ensures
        float_free(entries[k].1),
    decreases n,
{
    if k < n - 1 {
        lemma_entries_float_free(entries, (n - 1) as nat, k);
    }
}

/// The children of a float-free value are float-free.
pub proof fn lemma_float_free_children(v: Value)
    requires
        float_free(v),
    ensures
        v matches Value::List(items) ==> all_float_free(items@),
        v matches Value::Node(entries) ==> fields_float_free(entries@),
{
    match v {
        Value::List(items) => {
            assert forall|k: int| 0 <= k < items@.len() implies #[trigger] float_free(items@[k]) by {
                lemma_items_float_free(items@, items@.len(), k);
            }
        },
        Value::Node(entries) => {
            assert forall|k: int| 0 <= k < entries@.len() implies #[trigger] float_free(
                entries@[k].1,
            ) by {
                lemma_entries_float_free(entries@, entries@.len(), k);
            }
        },
        _ => {},
    }
}

/// The UTF-8 bytes of a field name, which `String`'s `Ord` compares.
pub open spec fn key_bytes(e: (String, Value)) -> Seq<u8> {
    encode_utf8(e.0@)
}

/// Field names in strictly increasing bytewise order, hence each at most once.
pub open spec fn keys_sorted(entries: Seq<(String, Value)>) -> bool {
    forall|i: int, j: int|
        0 <= i < j < entries.len() ==> lex_lt(
            #[trigger] key_bytes(entries[i]),
            #[trigger] key_bytes(entries[j]),
        )
}

/// Every object in `v`, however deep, has its fields in strictly increasing
/// name order.
pub open spec fn well_formed(v: Value) -> bool
    decreases v,
{
    match v {
        Value::Leaf(_) => true,
        Value::List(items) => forall|i: int|
            0 <= i < items@.len() ==> #[trigger] well_formed(items@[i]),
        Value::Node(entries) => keys_sorted(entries@) && forall|i: int|
            0 <= i < entries@.len() ==> #[trigger] well_formed(entries@[i].1),
    }
}

/// The largest number of non-empty containers met on a path from `v` down.
pub open spec fn nesting(v: Value) -> nat
    decreases v, 0nat,
{
    match v {
        Value::Leaf(_) => 0,
        Value::List(items) => if items@.len() == 0 {
            0
        } else {
            1 + items_nesting(items@, items@.len())
        },
        Value::Node(entries) => if entries@.len() == 0 {
            0
        } else {
            1 + entries_nesting(entries@, entries@.len())
        },
    }
}

/// The largest nesting among the first `n` items.
pub open spec fn items_nesting(items: Seq<Value>, n: nat) -> nat
    decreases items, n,
{
    if n == 0 || n > items.len() {
        0
    } else {
        let a = items_nesting(items, (n - 1) as nat);
        let b = nesting(items[n - 1]);
        if a < b {
            b
        } else {
            a
        }
    }
}

/// The largest nesting among the values of the first `n` fields.
pub open spec fn entries_nesting(entries: Seq<(String, Value)>, n: nat) -> nat
    decreases entries, n,
{
    if n == 0 || n > entries.len() {
        0
    } else {
        let a = entries_nesting(entries, (n - 1) as nat);
        let b = nesting(entries[n - 1].1);
        if a < b {
            b
        } else {
            a
        }
    }
}

/// Each item nests no deeper than the largest nesting of the run.
pub proof fn lemma_items_nesting(items: Seq<Value>, n: nat, i: int)
    requires
        0 <= i < n <= items.len(),
    ensures
        nesting(items[i]) <= items_nesting(items, n),
    decreases n,
{
    if i < n - 1 {
        lemma_items_nesting(items, (n - 1) as nat, i);
    }
}

/// Each field value nests no deeper than the largest nesting of the run.
pub proof fn lemma_entries_nesting(entries: Seq<(String, Value)>, n: nat, i: int)
    requires
        0 <= i < n <= entries.len(),
    ensures
        nesting(entries[i].1) <= entries_nesting(entries, n),
    decreases n,
{
    if i < n - 1 {
        lemma_entries_nesting(entries, (n - 1) as nat, i);
    }
}

/// The position of the first field named `name`, if any.
pub open spec fn find_field(entries: Seq<(String, Value)>, name: Seq<char>) -> Option<int> {
    if exists|i: int| 0 <= i < entries.len() && #[trigger] entries[i].0@ == name {
        Some(
            choose|i: int|
                0 <= i < entries.len() && entries[i].0@ == name && forall|j: int|
                    0 <= j < i ==> #[trigger] entries[j].0@ != name,
        )
    } else {
        None
    }
}

/// The subtree of `v` that `path` addresses, or `None` when a segment leads
/// nowhere: a name on a non-object or a missing field, an index on a non-list
/// or past its end.
pub open spec fn subtree_at(v: Value, path: Seq<SegmentView>) -> Option<Value>
    decreases path.len(),
{
    if path.len() == 0 {
        Some(v)
    } else {
        match (path[0], v) {
            (SegmentView::Name(name), Value::Node(entries)) => match find_field(entries@, name) {
                Some(i) => subtree_at(entries@[i].1, path.drop_first()),
                None => None,
            },
            (SegmentView::Index(k), Value::List(items)) => if k < items@.len() {
                subtree_at(items@[k as int], path.drop_first())
            } else {
                None
            },
            _ => None,
        }
    }
}

/// Equal UTF-8 encodings come from equal strings.
proof fn lemma_encode_injective(a: Seq<char>, b: Seq<char>)
    requires
        encode_utf8(a) == encode_utf8(b),
    ensures
        a == b,
{
    encode_utf8_decode_utf8(a);
    encode_utf8_decode_utf8(b);
}

impl Value {
    /// The subtree at `path`, or `None` if a segment leads nowhere. The root
    /// path gives the whole value.
    pub fn subtree(&self, path: &SPath) -> (r: Option<&Value>)
        ensures
            r matches Some(x) ==> subtree_at(*self, path@) == Some(*x),
            r is None ==> subtree_at(*self, path@) is None,
    {
        let segments = path.segments();
        let mut cur: &Value = self;
        let mut i: usize = 0;
        proof {
            assert(path@.skip(0) =~= path@);
        }
        while i < segments.len()
            invariant
                segments@.map_values(|x: Segment| x@) == path@,
                i <= segments@.len(),
                subtree_at(*self, path@) == subtree_at(*cur, path@.skip(i as int)),
            decreases segments@.len() - i,
        {
            let ghost rest = path@.skip(i as int);
            assert(rest[0] == segments@[i as int]@);
            assert(rest.drop_first() =~= path@.skip(i + 1));
            match (&segments[i], cur) {
                (Segment::Name(name), Value::Node(entries)) => {
                    match find_entry(entries, name) {
                        Some(j) => {
                            cur = &entries[j].1;
                        },
                        None => {
                            return None;
                        },
                    }
                },
                (Segment::Index(k), Value::List(items)) => {
                    if *k < items.len() as u64 {
                        cur = &items[*k as usize];
                    } else {
                        return None;
                    }
                },
                _ => {
                    return None;
                },
            }
            i = i + 1;
        }
        assert(path@.skip(i as int) =~= Seq::<SegmentView>::empty());
        Some(cur)
    }

    /// An object holding `pairs`, as collecting them into an ordered map
    /// does: fields sorted by name, and where a name occurs more than once the
    /// last pair with it wins.
    pub fn object(pairs: Vec<(String, Value)>) -> (v: Value)
        ensures
            object_of(v, pairs@),
    {
        let ghost orig = pairs@;
        let mut pairs = pairs;
        let mut entries: Vec<(String, Value)> = Vec::new();
        let ghost mut origin: Seq<int> = Seq::empty();
        while pairs.len() > 0
            invariant
                pairs@ == orig.take(pairs@.len() as int),
                pairs@.len() <= orig.len(),
                keys_sorted(entries@),
                origins_ok(entries@, origin, orig, pairs@.len() as int),
                covered(entries@, orig, pairs@.len() as int),
            decreases pairs@.len(),
        {
            let ghost jj = pairs@.len() - 1;
            let pair = pairs.pop().unwrap();
            assert(pairs@ =~= orig.take(jj));
            let ghost before = entries@;
            match insert_field(&mut entries, pair) {
                Some(p) => {
                    proof {
                        lemma_insert_keeps(before, origin, orig, jj, p as int);
                        origin = origin.insert(p as int, jj);
                    }
                },
                None => {
                    proof {
                        lemma_found_keeps(before, origin, orig, jj);
                    }
                },
            }
        }
        proof {
            let v = Value::Node(entries);
            let es = v->Node_0@;
            assert(es == entries@);
            assert forall|i: int| 0 <= i < es.len() implies #[trigger] has_origin(orig, es[i]) by {
                assert(from_pair(orig, es[i], origin[i]));
            }
            assert(object_of(v, orig));
        }
        Value::Node(entries)
    }
}

/// `v` is the object that collecting `pairs` into an ordered map gives: its
/// fields are sorted by name, each is the last pair with its name, and every
/// name among the pairs is a field.
pub open spec fn object_of(v: Value, pairs: Seq<(String, Value)>) -> bool {
    &&& v is Node
    &&& keys_sorted(v->Node_0@)
    &&& forall|i: int|
        0 <= i < v->Node_0@.len() ==> #[trigger] has_origin(pairs, v->Node_0@[i])
    &&& covered(v->Node_0@, pairs, 0)
}

/// `e` is one of `pairs`, the last with its name.
pub open spec fn has_origin(pairs: Seq<(String, Value)>, e: (String, Value)) -> bool {
    exists|j: int| #[trigger] from_pair(pairs, e, j)
}

/// `e` is the `j`-th pair, the last with its name.
pub open spec fn from_pair(pairs: Seq<(String, Value)>, e: (String, Value), j: int) -> bool {
    0 <= j < pairs.len() && pairs[j] == e && last_with_name(pairs, j)
}

/// No pair after the `j`-th has its name.
pub open spec fn last_with_name(pairs: Seq<(String, Value)>, j: int) -> bool {
    forall|t: int| j < t < pairs.len() ==> #[trigger] pairs[t].0@ != pairs[j].0@
}

/// Some entry has the name `name`.
pub open spec fn has_name(entries: Seq<(String, Value)>, name: Seq<char>) -> bool {
    exists|i: int| 0 <= i < entries.len() && #[trigger] entries[i].0@ == name
}

/// Every name of the pairs from `lo` on is the name of some entry.
pub open spec fn covered(entries: Seq<(String, Value)>, pairs: Seq<(String, Value)>, lo: int) -> bool {
    forall|j: int| lo <= j < pairs.len() ==> has_name(entries, #[trigger] pairs[j].0@)
}

/// Each entry is the last pair with its name, at the recorded position, at or
/// after `lo`.
spec fn origins_ok(
    entries: Seq<(String, Value)>,
    origin: Seq<int>,
    pairs: Seq<(String, Value)>,
    lo: int,
) -> bool {
    &&& entries.len() == origin.len()
    &&& forall|i: int|
        0 <= i < entries.len() ==> {
            &&& lo <= #[trigger] origin[i] < pairs.len()
            &&& entries[i] == pairs[origin[i]]
            &&& last_with_name(pairs, origin[i])
        }
}

proof fn lemma_insert_keeps(
    entries: Seq<(String, Value)>,
    origin: Seq<int>,
    pairs: Seq<(String, Value)>,
    jj: int,
    p: int,
)
    requires
        0 <= jj < pairs.len(),
        0 <= p <= entries.len(),
        origins_ok(entries, origin, pairs, jj + 1),
        covered(entries, pairs, jj + 1),
        forall|i: int| 0 <= i < entries.len() ==> #[trigger] entries[i].0@ != pairs[jj].0@,
    ensures
        origins_ok(entries.insert(p, pairs[jj]), origin.insert(p, jj), pairs, jj),
        covered(entries.insert(p, pairs[jj]), pairs, jj),
{
    let ne = entries.insert(p, pairs[jj]);
    let no = origin.insert(p, jj);
    assert forall|i: int| 0 <= i < ne.len() implies {
        &&& jj <= #[trigger] no[i] < pairs.len()
        &&& ne[i] == pairs[no[i]]
        &&& last_with_name(pairs, no[i])
    } by {
        if i == p {
            assert forall|t: int| jj < t < pairs.len() implies #[trigger] pairs[t].0@
                != pairs[jj].0@ by {
                assert(has_name(entries, pairs[t].0@));
                let w = choose|w: int| 0 <= w < entries.len() && #[trigger] entries[w].0@ == pairs[t].0@;
                assert(entries[w].0@ != pairs[jj].0@);
            }
        } else if i < p {
            assert(ne[i] == entries[i]);
            assert(no[i] == origin[i]);
        } else {
            assert(ne[i] == entries[i - 1]);
            assert(no[i] == origin[i - 1]);
        }
    }
    assert forall|j: int| jj <= j < pairs.len() implies has_name(ne, #[trigger] pairs[j].0@) by {
        if j == jj {
            assert(ne[p].0@ == pairs[j].0@);
        } else {
            assert(has_name(entries, pairs[j].0@));
            let w = choose|w: int| 0 <= w < entries.len() && #[trigger] entries[w].0@ == pairs[j].0@;
            if w < p {
                assert(ne[w].0@ == pairs[j].0@);
            } else {
                assert(ne[w + 1].0@ == pairs[j].0@);
            }
        }
    }
    assert(covered(ne, pairs, jj));
}

proof fn lemma_found_keeps(
    entries: Seq<(String, Value)>,
    origin: Seq<int>,
    pairs: Seq<(String, Value)>,
    jj: int,
)
    requires
        0 <= jj < pairs.len(),
        origins_ok(entries, origin, pairs, jj + 1),
        covered(entries, pairs, jj + 1),
        has_name(entries, pairs[jj].0@),
    ensures
        origins_ok(entries, origin, pairs, jj),
        covered(entries, pairs, jj),
{
    assert forall|j: int| jj <= j < pairs.len() implies has_name(entries, #[trigger] pairs[j].0@) by {
        if j == jj {
            let w = choose|w: int| 0 <= w < entries.len() && #[trigger] entries[w].0@ == pairs[jj].0@;
            assert(entries[w].0@ == pairs[j].0@);
        }
    }
}

/// Inserts `pair` at its sorted place, unless a field of that name is
/// already there: then `pair` is dropped and `entries` is unchanged.
fn insert_field(entries: &mut Vec<(String, Value)>, pair: (String, Value)) -> (r: Option<usize>)
    requires
        keys_sorted(old(entries)@),
    ensures
        keys_sorted(final(entries)@),
        r matches Some(p) ==> {
            &&& p <= old(entries)@.len()
            &&& final(entries)@ == old(entries)@.insert(p as int, pair)
            &&& forall|i: int|
                0 <= i < old(entries)@.len() ==> #[trigger] old(entries)@[i].0@ != pair.0@
        },
        r is None ==> final(entries)@ == old(entries)@ && has_name(old(entries)@, pair.0@),
{
    let key: &str = pair.0.as_str();
    let ghost kb = encode_utf8(pair.0@);
    let mut p: usize = 0;
    while p < entries.len() && bytes_lt(entries[p].0.as_str().as_bytes(), key.as_bytes())
        invariant
            p <= entries@.len(),
            key@ == pair.0@,
            kb == encode_utf8(pair.0@),
            forall|i: int| 0 <= i < p ==> lex_lt(#[trigger] key_bytes(entries@[i]), kb),
        decreases entries@.len() - p,
    {
        p = p + 1;
    }
    if p < entries.len() && bytes_eq(entries[p].0.as_str().as_bytes(), key.as_bytes()) {
        proof {
            lemma_encode_injective(entries@[p as int].0@, pair.0@);
        }
        return None;
    }
    proof {
        assert forall|i: int| 0 <= i < entries@.len() implies #[trigger] entries@[i].0@
            != pair.0@ by {
            if entries@[i].0@ == pair.0@ {
                if i < p {
                    lemma_lex_asym(key_bytes(entries@[i]), kb);
                } else {
                    lemma_lex_total(key_bytes(entries@[p as int]), kb);
                    if i > p {
                        assert(lex_lt(key_bytes(entries@[p as int]), key_bytes(entries@[i])));
                        lemma_lex_transitive(kb, key_bytes(entries@[p as int]), key_bytes(entries@[i]));
                        lemma_lex_asym(kb, kb);
                    }
                }
            }
        }
        if p < entries@.len() {
            lemma_lex_total(key_bytes(entries@[p as int]), kb);
        }
    }
    let ghost old_entries = entries@;
    entries.insert(p, pair);
    proof {
        assert forall|i: int, j: int| 0 <= i < j < entries@.len() implies lex_lt(
            #[trigger] key_bytes(entries@[i]),
            #[trigger] key_bytes(entries@[j]),
        ) by {
            if j == p {
                assert(entries@[i] == old_entries[i]);
            } else if i == p {
                assert(entries@[j] == old_entries[j - 1]);
                if j - 1 > p {
                    assert(lex_lt(key_bytes(old_entries[p as int]), key_bytes(old_entries[j - 1])));
                    lemma_lex_transitive(
                        kb,
                        key_bytes(old_entries[p as int]),
                        key_bytes(old_entries[j - 1]),
                    );
                }
            } else if i < p && j > p {
                assert(entries@[i] == old_entries[i]);
                assert(entries@[j] == old_entries[j - 1]);
            } else if j < p {
                assert(entries@[i] == old_entries[i]);
                assert(entries@[j] == old_entries[j]);
            } else {
                assert(entries@[i] == old_entries[i - 1]);
                assert(entries@[j] == old_entries[j - 1]);
            }
        }
    }
    Some(p)
}

/// The position of the first entry named `name`.
fn find_entry(entries: &Vec<(String, Value)>, name: &String) -> (r: Option<usize>)
    ensures
        r matches Some(i) ==> find_field(entries@, name@) == Some(i as int) && i < entries@.len(),
        r is None ==> find_field(entries@, name@) is None,
{
    let mut i: usize = 0;
    while i < entries.len()
        invariant
            i <= entries@.len(),
            forall|j: int| 0 <= j < i ==> #[trigger] entries@[j].0@ != name@,
        decreases entries@.len() - i,
    {
        if bytes_eq(entries[i].0.as_str().as_bytes(), name.as_str().as_bytes()) {
            proof {
                lemma_encode_injective(entries@[i as int].0@, name@);
                let c = choose|c: int|
                    0 <= c < entries@.len() && entries@[c].0@ == name@ && forall|j: int|
                        0 <= j < c ==> #[trigger] entries@[j].0@ != name@;
                if c < i {
                } else if c > i {
                    assert(entries@[i as int].0@ != name@);
                }
            }
            return Some(i);
        }
        proof {
            if entries@[i as int].0@ == name@ {
                // Equal names have equal encodings.
                assert(encode_utf8(entries@[i as int].0@) == encode_utf8(name@));
            }
        }
        i = i + 1;
    }
    None
}

/// Items all renderable make a renderable run.
proof fn lemma_items_all_renderable(items: Seq<Value>, n: nat)
    requires
        n <= items.len(),
        forall|k: int| 0 <= k < n ==> #[trigger] renderable(items[k]),
    ensures
        items_renderable(items, n),
    decreases n,
{
    if n > 0 {
        lemma_items_all_renderable(items, (n - 1) as nat);
        assert(renderable(items[n - 1]));
    }
}

/// Field values all renderable make a renderable run.
proof fn lemma_entries_all_renderable(entries: Seq<(String, Value)>, n: nat)
    requires
        n <= entries.len(),
        forall|k: int| 0 <= k < n ==> #[trigger] renderable(entries[k].1),
    ensures
        entries_renderable(entries, n),
    decreases n,
{
    if n > 0 {
        lemma_entries_all_renderable(entries, (n - 1) as nat);
        assert(renderable(entries[n - 1].1));
    }
}

impl Value {
    /// Whether this value can be rendered (see [`renderable`]): every leaf
    /// renderable and every object's names strictly increasing.
    pub fn is_renderable(&self) -> (b: bool)
        ensures
            b == renderable(*self),
        decreases self,
    {
        match self {
            Value::Leaf(s) => scalar_is_renderable(s),
            Value::List(items) => {
                let b = items_are_renderable(items);
                proof {
                    if b {
                        lemma_items_all_renderable(items@, items@.len());
                    } else if renderable(*self) {
                        lemma_renderable_children(*self);
                    }
                }
                b
            },
            Value::Node(entries) => {
                let b = fields_are_renderable(entries);
                proof {
                    if b {
                        lemma_entries_all_renderable(entries@, entries@.len());
                    } else if renderable(*self) {
                        lemma_renderable_children(*self);
                    }
                }
                b
            },
        }
    }
}

/// Whether every item can be rendered.
fn items_are_renderable(items: &Vec<Value>) -> (b: bool)
    ensures
        b == forall|k: int| 0 <= k < items@.len() ==> #[trigger] renderable(items@[k]),
    decreases items,
{
    let mut i: usize = 0;
    while i < items.len()
        invariant
            i <= items@.len(),
            forall|k: int| 0 <= k < i ==> #[trigger] renderable(items@[k]),
        decreases items@.len() - i,
    {
        if !items[i].is_renderable() {
            return false;
        }
        i = i + 1;
    }
    true
}

/// Whether the fields are in strictly increasing name order with every value
/// renderable.
fn fields_are_renderable(entries: &Vec<(String, Value)>) -> (b: bool)
    ensures
        b == (keys_sorted(entries@) && forall|k: int|
            0 <= k < entries@.len() ==> #[trigger] renderable(entries@[k].1)),
    decreases entries,
{
    let mut i: usize = 0;
    while i < entries.len()
        invariant
            i <= entries@.len(),
            forall|k: int| 0 <= k < i ==> #[trigger] renderable(entries@[k].1),
            forall|a: int, b: int|
                0 <= a < b < i ==> lex_lt(
                    #[trigger] key_bytes(entries@[a]),
                    #[trigger] key_bytes(entries@[b]),
                ),
        decreases entries@.len() - i,
    {
        if i > 0 && !bytes_lt(entries[i - 1].0.as_str().as_bytes(), entries[i].0.as_str().as_bytes()) {
            assert(!lex_lt(key_bytes(entries@[i - 1]), key_bytes(entries@[i as int])));
            return false;
        }
        if !entries[i].1.is_renderable() {
            return false;
        }
        proof {
            assert forall|a: int, b: int| 0 <= a < b < i + 1 implies lex_lt(
                #[trigger] key_bytes(entries@[a]),
                #[trigger] key_bytes(entries@[b]),
            ) by {
                if b == i && a < i - 1 {
                    lemma_lex_transitive(
                        key_bytes(entries@[a]),
                        key_bytes(entries@[i - 1]),
                        key_bytes(entries@[b]),
                    );
                }
            }
        }
        i = i + 1;
    }
    true
}

/// Addressing goes step by step: one more index segment picks that position
/// of the list the path leads to, counting from the front.
pub proof fn lemma_subtree_index(v: Value, path: Seq<SegmentView>, items: Vec<Value>, k: u64)
    requires
        subtree_at(v, path) == Some(Value::List(items)),
        k < items@.len(),
    ensures
        subtree_at(v, path.push(SegmentView::Index(k))) == Some(items@[k as int]),
    decreases path.len(),
{
    if path.len() == 0 {
        assert(path.push(SegmentView::Index(k)) =~= seq![SegmentView::Index(k)]);
        assert(seq![SegmentView::Index(k)].drop_first() =~= Seq::<SegmentView>::empty());
        assert(v == Value::List(items));
        assert(subtree_at(items@[k as int], Seq::<SegmentView>::empty()) == Some(items@[k as int]));
    } else {
        assert(path.push(SegmentView::Index(k)).drop_first() =~= path.drop_first().push(
            SegmentView::Index(k),
        ));
        assert(path.push(SegmentView::Index(k))[0] == path[0]);
        match (path[0], v) {
            (SegmentView::Name(name), Value::Node(entries)) => match find_field(entries@, name) {
                Some(i) => lemma_subtree_index(entries@[i].1, path.drop_first(), items, k),
                None => {},
            },
            (SegmentView::Index(j), Value::List(xs)) => if j < xs@.len() {
                lemma_subtree_index(xs@[j as int], path.drop_first(), items, k);
            },
            _ => {},
        }
    }
}

/// One more name segment picks the first field of that name of the object
/// the path leads to.
pub proof fn lemma_subtree_name(
    v: Value,
    path: Seq<SegmentView>,
    entries: Vec<(String, Value)>,
    name: Seq<char>,
    j: int,
)
    requires
        subtree_at(v, path) == Some(Value::Node(entries)),
        0 <= j < entries@.len(),
        entries@[j].0@ == name,
        forall|i: int| 0 <= i < j ==> entries@[i].0@ != name,
    ensures
        subtree_at(v, path.push(SegmentView::Name(name))) == Some(entries@[j].1),
    decreases path.len(),
{
    if path.len() == 0 {
        assert(path.push(SegmentView::Name(name)) =~= seq![SegmentView::Name(name)]);
        assert(seq![SegmentView::Name(name)].drop_first() =~= Seq::<SegmentView>::empty());
        let es = entries@;
        assert(es[j].0@ == name);
        let c = choose|i: int|
            0 <= i < es.len() && es[i].0@ == name && forall|jj: int|
                0 <= jj < i ==> #[trigger] es[jj].0@ != name;
        assert(0 <= c < es.len() && es[c].0@ == name && forall|jj: int|
            0 <= jj < c ==> #[trigger] es[jj].0@ != name);
        if c < j {
            assert(es[c].0@ != name);
        }
        if j < c {
            assert(es[j].0@ != name);
        }
        assert(find_field(es, name) == Some(j));
        assert(v == Value::Node(entries));
        assert(subtree_at(es[j].1, Seq::<SegmentView>::empty()) == Some(es[j].1));
    } else {
        assert(path.push(SegmentView::Name(name)).drop_first() =~= path.drop_first().push(
            SegmentView::Name(name),
        ));
        assert(path.push(SegmentView::Name(name))[0] == path[0]);
        match (path[0], v) {
            (SegmentView::Name(nm), Value::Node(es)) => match find_field(es@, nm) {
                Some(i) => lemma_subtree_name(es@[i].1, path.drop_first(), entries, name, j),
                None => {},
            },
            (SegmentView::Index(x), Value::List(xs)) => if x < xs@.len() {
                lemma_subtree_name(xs@[x as int], path.drop_first(), entries, name, j);
            },
            _ => {},
        }
    }
}

/// Addressing a path in two parts is addressing the first part, then the
/// second from where it leads.
pub proof fn lemma_subtree_split(v: Value, p: Seq<SegmentView>, q: Seq<SegmentView>)
    ensures
        subtree_at(v, p + q) == match subtree_at(v, p) {
            Some(w) => subtree_at(w, q),
            None => None,
        },
    decreases p.len(),
{
    if p.len() == 0 {
        assert(p + q =~= q);
    } else {
        assert((p + q)[0] == p[0]);
        assert((p + q).drop_first() =~= p.drop_first() + q);
        match (p[0], v) {
            (SegmentView::Name(name), Value::Node(entries)) => match find_field(entries@, name) {
                Some(i) => lemma_subtree_split(entries@[i].1, p.drop_first(), q),
                None => {},
            },
            (SegmentView::Index(k), Value::List(items)) => if k < items@.len() {
                lemma_subtree_split(items@[k as int], p.drop_first(), q);
            },
            _ => {},
        }
    }
}

} // verus!
