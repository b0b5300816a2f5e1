//! A packed entity's tree in its archived form: the entity's nodes keyed by
//! their real keys and sorted by key, object fields sorted by name, leaf
//! scalars kept in the storage codec. Lookups are binary searches over those
//! sorted runs, so a node or a child link is found without a scan.

use crate::bytes::{bytes_eq, bytes_lt, lemma_lex_asym, lemma_lex_transitive, lex_lt};
use crate::codec::Reader;
use crate::engine::node::{Node, NodeView};
use crate::engine::table_key::{TableKey, TableKeyView};
use crate::engine::table_value::{TableValue, TableValueView};
use crate::error::SdbResult;
use crate::key::Skey;
use crate::scalar::{decode_panics, scalar_decode_panics, scalar_parse, Scalar, ScalarView};
use vstd::prelude::*;
use vstd::utf8::{encode_utf8, encode_utf8_decode_utf8};

verus! {

/// One archived node, its children referenced by key.
#[derive(Debug)]
pub enum ArchNode {
    /// An object: `(field name, child key)` pairs, sorted by name.
    Object(Vec<(String, Skey)>),
    /// A list: the element keys, in order.
    List(Vec<Skey>),
    /// A leaf: its scalar in the storage codec.
    Leaf(Vec<u8>),
}

/// The mathematical form of an [`ArchNode`].
pub enum ArchNodeView {
    Object(Seq<(Seq<char>, u128)>),
    List(Seq<u128>),
    Leaf(Seq<u8>),
}

/// The mathematical form of an object's field links.
pub open spec fn links_view(pairs: Seq<(String, Skey)>) -> Seq<(Seq<char>, u128)> {
    pairs.map_values(|p: (String, Skey)| (p.0@, p.1@))
}

impl View for ArchNode {
    type V = ArchNodeView;

    open spec fn view(&self) -> ArchNodeView {
        match self {
            ArchNode::Object(pairs) => ArchNodeView::Object(links_view(pairs@)),
            ArchNode::List(items) => ArchNodeView::List(items@.map_values(|k: Skey| k@)),
            ArchNode::Leaf(b) => ArchNodeView::Leaf(b@),
        }
    }
}

/// An owned snapshot of one archived node, its leaf scalar decoded.
#[derive(Debug)]
pub enum NodeSnapshot {
    Object(Vec<(String, Skey)>),
    List(Vec<Skey>),
    Leaf(Scalar),
}

/// The mathematical form of a [`NodeSnapshot`].
pub enum NodeSnapshotView {
    Object(Seq<(Seq<char>, u128)>),
    List(Seq<u128>),
    Leaf(ScalarView),
}

impl View for NodeSnapshot {
    type V = NodeSnapshotView;

    open spec fn view(&self) -> NodeSnapshotView {
        match self {
            NodeSnapshot::Object(pairs) => NodeSnapshotView::Object(links_view(pairs@)),
            NodeSnapshot::List(items) => NodeSnapshotView::List(items@.map_values(|k: Skey| k@)),
            NodeSnapshot::Leaf(s) => NodeSnapshotView::Leaf(s@),
        }
    }
}

/// A packed entity's nodes, as `(key, node)` pairs.
pub struct ArchivedNodes {
    nodes: Vec<(Skey, ArchNode)>,
}

impl View for ArchivedNodes {
    type V = Seq<(u128, ArchNodeView)>;

    closed spec fn view(&self) -> Seq<(u128, ArchNodeView)> {
        self.nodes@.map_values(|e: (Skey, ArchNode)| (e.0@, e.1@))
    }
}

/// Node keys in strictly increasing order.
pub open spec fn keys_ordered(ns: Seq<(u128, ArchNodeView)>) -> bool {
    forall|i: int, j: int| 0 <= i < j < ns.len() ==> (#[trigger] ns[i]).0 < (#[trigger] ns[j]).0
}

/// Field names in strictly increasing bytewise order.
pub open spec fn names_ordered(ps: Seq<(Seq<char>, u128)>) -> bool {
    forall|i: int, j: int|
        0 <= i < j < ps.len() ==> lex_lt(encode_utf8((#[trigger] ps[i]).0), encode_utf8((#[trigger] ps[j]).0))
}

/// The order the writer archives in, which the binary searches rely on: keys
/// sorted, and every object's fields sorted by name.
pub open spec fn archive_ordered(ns: Seq<(u128, ArchNodeView)>) -> bool {
    &&& keys_ordered(ns)
    &&& forall|i: int|
        0 <= i < ns.len() ==> ((#[trigger] ns[i]).1 matches ArchNodeView::Object(ps) ==> names_ordered(ps))
}

/// Every leaf's bytes decode without overflowing the duration type.
pub open spec fn leaves_decodable(ns: Seq<(u128, ArchNodeView)>) -> bool {
    forall|i: int|
        0 <= i < ns.len() ==> ((#[trigger] ns[i]).1 matches ArchNodeView::Leaf(b) ==> !scalar_decode_panics(b))
}

/// Some node is stored under `k`.
pub open spec fn has_key(ns: Seq<(u128, ArchNodeView)>, k: u128) -> bool {
    exists|i: int| 0 <= i < ns.len() && (#[trigger] ns[i]).0 == k
}

/// The node stored under `k`.
pub open spec fn node_at(ns: Seq<(u128, ArchNodeView)>, k: u128) -> Option<ArchNodeView> {
    if has_key(ns, k) {
        Some(ns[choose|i: int| 0 <= i < ns.len() && (#[trigger] ns[i]).0 == k].1)
    } else {
        None
    }
}

/// Some field of `ps` is named `name`.
pub open spec fn has_name(ps: Seq<(Seq<char>, u128)>, name: Seq<char>) -> bool {
    exists|j: int| 0 <= j < ps.len() && (#[trigger] ps[j]).0 == name
}

/// A position of a field named `name`, when there is one.
pub open spec fn name_index(ps: Seq<(Seq<char>, u128)>, name: Seq<char>) -> int {
    choose|j: int| 0 <= j < ps.len() && (#[trigger] ps[j]).0 == name
}

/// The child key of the field named `name`.
pub open spec fn field_of(ps: Seq<(Seq<char>, u128)>, name: Seq<char>) -> Option<u128> {
    if has_name(ps, name) {
        Some(ps[name_index(ps, name)].1)
    } else {
        None
    }
}

/// The child of object `parent` through its field `name`.
pub open spec fn child_of(ns: Seq<(u128, ArchNodeView)>, parent: u128, name: Seq<char>) -> Option<u128> {
    match node_at(ns, parent) {
        Some(ArchNodeView::Object(ps)) => field_of(ps, name),
        _ => None,
    }
}

/// The field links of `n`: none unless it is an object.
pub open spec fn fields(n: ArchNodeView) -> Seq<(Seq<char>, u128)> {
    match n {
        ArchNodeView::Object(ps) => ps,
        _ => Seq::empty(),
    }
}

/// `n` is an object with a field `name` linking to `k`.
pub open spec fn links_to(n: ArchNodeView, name: Seq<char>, k: u128) -> bool {
    &&& n is Object
    &&& exists|j: int| 0 <= j < fields(n).len() && (#[trigger] fields(n)[j]) == (name, k)
}

/// The fields of `ps` whose names are at or after `name`, in order.
pub open spec fn links_from_name(ps: Seq<(Seq<char>, u128)>, name: Seq<char>) -> Seq<(Seq<char>, u128)>
    decreases ps.len(),
{
    if ps.len() == 0 {
        Seq::empty()
    } else {
        let rest = links_from_name(ps.drop_last(), name);
        if lex_lt(encode_utf8(ps.last().0), encode_utf8(name)) {
            rest
        } else {
            rest.push(ps.last())
        }
    }
}

/// The field links of node `n` at or after `name`: none unless it is an object.
pub open spec fn node_links_from(n: Option<ArchNodeView>, name: Seq<char>) -> Seq<(Seq<char>, u128)> {
    match n {
        Some(ArchNodeView::Object(ps)) => links_from_name(ps, name),
        _ => Seq::empty(),
    }
}

/// What reading node `n` as a table value gives: `None` when its leaf bytes
/// do not decode.
pub open spec fn node_read(n: ArchNodeView) -> Option<TableValueView> {
    match n {
        ArchNodeView::Object(_) => Some(TableValueView::Node(NodeView::Object)),
        ArchNodeView::List(items) => Some(TableValueView::Node(NodeView::List(items))),
        ArchNodeView::Leaf(b) => match scalar_parse(b) {
            Some((s, _)) => Some(TableValueView::Node(NodeView::Leaf(s))),
            None => None,
        },
    }
}

/// The snapshot of node `n`: `None` when its leaf bytes do not decode.
pub open spec fn snapshot_of(n: ArchNodeView) -> Option<NodeSnapshotView> {
    match n {
        ArchNodeView::Object(ps) => Some(NodeSnapshotView::Object(ps)),
        ArchNodeView::List(items) => Some(NodeSnapshotView::List(items)),
        ArchNodeView::Leaf(b) => match scalar_parse(b) {
            Some((s, _)) => Some(NodeSnapshotView::Leaf(s)),
            None => None,
        },
    }
}

/// With keys ordered, the node found under `k` is the one stored there.
proof fn lemma_node_at(ns: Seq<(u128, ArchNodeView)>, i: int)
    requires
        keys_ordered(ns),
        0 <= i < ns.len(),
    ensures
        node_at(ns, ns[i].0) == Some(ns[i].1),
{
    let k = ns[i].0;
    assert(has_key(ns, k));
    let c = choose|c: int| 0 <= c < ns.len() && (#[trigger] ns[c]).0 == k;
    if c < i {
        assert(ns[c].0 < ns[i].0);
    } else if c > i {
        assert(ns[i].0 < ns[c].0);
    }
}

/// With names ordered, the field found under `name` is the one stored there.
proof fn lemma_field_of(ps: Seq<(Seq<char>, u128)>, k: int)
    requires
        names_ordered(ps),
        0 <= k < ps.len(),
    ensures
        field_of(ps, ps[k].0) == Some(ps[k].1),
{
    let name = ps[k].0;
    assert(has_name(ps, name));
    let c = name_index(ps, name);
    assert(ps[c].0 == ps[k].0);
    if c < k {
        assert(lex_lt(encode_utf8(ps[c].0), encode_utf8(ps[k].0)));
        lemma_lex_asym(encode_utf8(ps[c].0), encode_utf8(ps[k].0));
    } else if c > k {
        assert(lex_lt(encode_utf8(ps[k].0), encode_utf8(ps[c].0)));
        lemma_lex_asym(encode_utf8(ps[k].0), encode_utf8(ps[c].0));
    }
}

/// Equal UTF-8 encodings come from equal strings.
proof fn lemma_same_encoding(a: Seq<char>, b: Seq<char>)
    requires
        encode_utf8(a) == encode_utf8(b),
    ensures
        a == b,
{
    encode_utf8_decode_utf8(a);
    encode_utf8_decode_utf8(b);
}

/// A copy of a run of keys.
fn copy_keys(keys: &Vec<Skey>) -> (c: Vec<Skey>)
    ensures
        c@.map_values(|k: Skey| k@) == keys@.map_values(|k: Skey| k@),
{
    let mut c: Vec<Skey> = Vec::new();
    let mut i: usize = 0;
    while i < keys.len()
        invariant
            i <= keys@.len(),
            c@.map_values(|k: Skey| k@) == keys@.map_values(|k: Skey| k@).take(i as int),
        decreases keys@.len() - i,
    {
        let ghost pre = c@;
        c.push(keys[i]);
        assert(c@.map_values(|k: Skey| k@) =~= pre.map_values(|k: Skey| k@).push(keys@[i as int]@));
        i = i + 1;
        assert(c@.map_values(|k: Skey| k@) =~= keys@.map_values(|k: Skey| k@).take(i as int));
    }
    assert(keys@.map_values(|k: Skey| k@).take(i as int) =~= keys@.map_values(|k: Skey| k@));
    c
}

/// A copy of an object's field links.
fn copy_links(pairs: &Vec<(String, Skey)>) -> (c: Vec<(String, Skey)>)
    ensures
        links_view(c@) == links_view(pairs@),
{
    let mut c: Vec<(String, Skey)> = Vec::new();
    let mut i: usize = 0;
    while i < pairs.len()
        invariant
            i <= pairs@.len(),
            links_view(c@) == links_view(pairs@).take(i as int),
        decreases pairs@.len() - i,
    {
        let ghost pre = c@;
        let name = pairs[i].0.clone();
        c.push((name, pairs[i].1));
        assert(links_view(c@) =~= links_view(pre).push((pairs@[i as int].0@, pairs@[i as int].1@)));
        i = i + 1;
        assert(links_view(c@) =~= links_view(pairs@).take(i as int));
    }
    assert(links_view(pairs@).take(i as int) =~= links_view(pairs@));
    c
}

/// Materializes an archived node, decoding a leaf's scalar; undecodable leaf
/// bytes are [`Corrupt`](crate::error::SdbError::Corrupt).
pub fn view_of(node: &ArchNode) -> (r: SdbResult<NodeSnapshot>)
    requires
        node@ matches ArchNodeView::Leaf(b) ==> !scalar_decode_panics(b),
    ensures
        match snapshot_of(node@) {
            Some(v) => r matches Ok(x) && x@ == v,
            None => r matches Err(e) && e is Corrupt,
        },
{
    match node {
        ArchNode::Object(pairs) => Ok(NodeSnapshot::Object(copy_links(pairs))),
        ArchNode::List(items) => Ok(NodeSnapshot::List(copy_keys(items))),
        ArchNode::Leaf(bytes) => {
            let mut r = Reader::new(bytes.as_slice());
            let s = Scalar::decode(&mut r)?;
            Ok(NodeSnapshot::Leaf(s))
        },
    }
}

impl ArchivedNodes {
    /// The entity holding `nodes`.
    pub fn from_nodes(nodes: Vec<(Skey, ArchNode)>) -> (a: ArchivedNodes)
        ensures
            a@ == nodes@.map_values(|e: (Skey, ArchNode)| (e.0@, e.1@)),
    {
        ArchivedNodes { nodes }
    }

    /// The `(key, node)` pairs.
    pub fn nodes(&self) -> (n: &Vec<(Skey, ArchNode)>)
        ensures
            n@.map_values(|e: (Skey, ArchNode)| (e.0@, e.1@)) == self@,
    {
        &self.nodes
    }

    /// Whether every leaf decodes without overflowing the duration type.
    pub fn decodable(&self) -> (b: bool)
        ensures
            b == leaves_decodable(self@),
    {
        let mut i: usize = 0;
        while i < self.nodes.len()
            invariant
                i <= self@.len(),
                self@.len() == self.nodes@.len(),
                forall|j: int|
                    0 <= j < i ==> ((#[trigger] self@[j]).1 matches ArchNodeView::Leaf(b)
                        ==> !scalar_decode_panics(b)),
            decreases self.nodes@.len() - i,
        {
            assert(self@[i as int] == (self.nodes@[i as int].0@, self.nodes@[i as int].1@));
            match &self.nodes[i].1 {
                ArchNode::Leaf(bytes) => {
                    if decode_panics(bytes.as_slice()) {
                        return false;
                    }
                },
                _ => {},
            }
            i = i + 1;
        }
        true
    }

    /// The position of the node stored under `key`, by binary search.
    fn find(&self, key: Skey) -> (r: Option<usize>)
        ensures
            r matches Some(i) ==> i < self@.len() && self@[i as int].0 == key@,
            r is None ==> (keys_ordered(self@) ==> !has_key(self@, key@)),
    {
        let ghost ns = self@;
        let mut lo: usize = 0;
        let mut hi: usize = self.nodes.len();
        while lo < hi
            invariant
                ns == self@,
                ns.len() == self.nodes@.len(),
                lo <= hi <= ns.len(),
                keys_ordered(ns) ==> forall|i: int| 0 <= i < lo ==> (#[trigger] ns[i]).0 < key@,
                keys_ordered(ns) ==> forall|i: int| hi <= i < ns.len() ==> key@ < (#[trigger] ns[i]).0,
            decreases hi - lo,
        {
            let mid = lo + (hi - lo) / 2;
            let k = self.nodes[mid].0.as_u128();
            assert(ns[mid as int].0 == k);
            if k == key.as_u128() {
                return Some(mid);
            } else if k < key.as_u128() {
                proof {
                    if keys_ordered(ns) {
                        assert forall|i: int| 0 <= i < mid + 1 implies (#[trigger] ns[i]).0 < key@ by {
                            if i < mid {
                                assert(ns[i].0 < ns[mid as int].0);
                            }
                        }
                    }
                }
                lo = mid + 1;
            } else {
                proof {
                    if keys_ordered(ns) {
                        assert forall|i: int| mid <= i < ns.len() implies key@ < (#[trigger] ns[i]).0 by {
                            if i > mid {
                                assert(ns[mid as int].0 < ns[i].0);
                            }
                        }
                    }
                }
                hi = mid;
            }
        }
        None
    }

    /// The node stored under `key`.
    pub fn node(&self, key: Skey) -> (r: Option<&ArchNode>)
        ensures
            r matches Some(n) ==> exists|i: int|
                0 <= i < self@.len() && (#[trigger] self@[i]).0 == key@ && self@[i].1 == n@,
            keys_ordered(self@) ==> match r {
                Some(n) => node_at(self@, key@) == Some(n@),
                None => node_at(self@, key@) is None,
            },
    {
        match self.find(key) {
            Some(i) => {
                proof {
                    if keys_ordered(self@) {
                        lemma_node_at(self@, i as int);
                    }
                }
                assert(self@[i as int].1 == self.nodes@[i as int].1@);
                Some(&self.nodes[i].1)
            },
            None => None,
        }
    }

    /// The child of object `parent` through its field `name`: a binary search
    /// over the object's name-sorted fields. `None` when `parent` is absent,
    /// not an object, or has no such field.
    pub fn child_link(&self, parent: Skey, name: &str) -> (r: Option<Skey>)
        ensures
            r matches Some(k) ==> exists|i: int|
                0 <= i < self@.len() && (#[trigger] self@[i]).0 == parent@ && links_to(
                    self@[i].1,
                    name@,
                    k@,
                ),
            archive_ordered(self@) ==> match r {
                Some(k) => child_of(self@, parent@, name@) == Some(k@),
                None => child_of(self@, parent@, name@) is None,
            },
    {
        let i = match self.find(parent) {
            Some(i) => i,
            None => {
                return None;
            },
        };
        let ghost ns = self@;
        proof {
            if keys_ordered(ns) {
                lemma_node_at(ns, i as int);
            }
        }
        assert(ns[i as int].1 == self.nodes@[i as int].1@);
        let pairs = match &self.nodes[i].1 {
            ArchNode::Object(pairs) => pairs,
            _ => {
                return None;
            },
        };
        let ghost ps = links_view(pairs@);
        let ghost target = encode_utf8(name@);
        let ghost ordered = archive_ordered(ns);
        assert(ns[i as int].1 == ArchNodeView::Object(ps));
        proof {
            if ordered {
                assert(ns[i as int].1 matches ArchNodeView::Object(qs) ==> names_ordered(qs));
                assert(child_of(ns, parent@, name@) == field_of(ps, name@));
            }
        }
        let mut lo: usize = 0;
        let mut hi: usize = pairs.len();
        while lo < hi
            invariant
                ns == self@,
                i < ns.len(),
                ns[i as int].0 == parent@,
                ns[i as int].1 == ArchNodeView::Object(ps),
                ordered == archive_ordered(ns),
                ordered ==> child_of(ns, parent@, name@) == field_of(ps, name@),
                ps == links_view(pairs@),
                ps.len() == pairs@.len(),
                target == encode_utf8(name@),
                ordered ==> names_ordered(ps),
                lo <= hi <= ps.len(),
                ordered ==> forall|j: int|
                    0 <= j < lo ==> lex_lt(encode_utf8((#[trigger] ps[j]).0), target),
                ordered ==> forall|j: int|
                    hi <= j < ps.len() ==> lex_lt(target, encode_utf8((#[trigger] ps[j]).0)),
            decreases hi - lo,
        {
            let mid = lo + (hi - lo) / 2;
            let here = pairs[mid].0.as_str().as_bytes();
            assert(here@ == encode_utf8(ps[mid as int].0));
            if bytes_eq(here, name.as_bytes()) {
                proof {
                    lemma_same_encoding(ps[mid as int].0, name@);
                    assert(ps[mid as int] == (name@, pairs@[mid as int].1@));
                    assert(fields(ns[i as int].1)[mid as int] == (name@, pairs@[mid as int].1@));
                    if ordered {
                        lemma_field_of(ps, mid as int);
                    }
                }
                return Some(pairs[mid].1);
            } else if bytes_lt(here, name.as_bytes()) {
                proof {
                    if ordered {
                        assert forall|j: int| 0 <= j < mid + 1 implies lex_lt(
                            encode_utf8((#[trigger] ps[j]).0),
                            target,
                        ) by {
                            if j < mid {
                                lemma_lex_transitive(
                                    encode_utf8(ps[j].0),
                                    encode_utf8(ps[mid as int].0),
                                    target,
                                );
                            }
                        }
                    }
                }
                lo = mid + 1;
            } else {
                proof {
                    if ordered {
                        crate::bytes::lemma_lex_total(encode_utf8(ps[mid as int].0), target);
                        assert forall|j: int| mid <= j < ps.len() implies lex_lt(
                            target,
                            encode_utf8((#[trigger] ps[j]).0),
                        ) by {
                            if j > mid {
                                lemma_lex_transitive(
                                    target,
                                    encode_utf8(ps[mid as int].0),
                                    encode_utf8(ps[j].0),
                                );
                            }
                        }
                    }
                }
                hi = mid;
            }
        }
        proof {
            if ordered {
                assert forall|j: int| 0 <= j < ps.len() implies (#[trigger] ps[j]).0 != name@ by {
                    if j < lo {
                        lemma_lex_asym(encode_utf8(ps[j].0), target);
                    } else {
                        lemma_lex_asym(target, encode_utf8(ps[j].0));
                    }
                }
                assert(!has_name(ps, name@));
            }
        }
        None
    }

    /// The fields of object `parent` whose names are at or after `name`, in
    /// name order: the forward scan of its child links from that name. Empty
    /// when `parent` is absent or not an object.
    pub fn links_from(&self, parent: Skey, name: &str) -> (r: Vec<(String, Skey)>)
        ensures
            keys_ordered(self@) ==> links_view(r@) == node_links_from(node_at(self@, parent@), name@),
            links_view(r@).len() > 0 ==> exists|i: int|
                0 <= i < self@.len() && (#[trigger] self@[i]).0 == parent@ && links_view(r@)
                    == node_links_from(Some(self@[i].1), name@),
    {
        let mut out: Vec<(String, Skey)> = Vec::new();
        let i = match self.find(parent) {
            Some(i) => i,
            None => {
                return out;
            },
        };
        let ghost ns = self@;
        proof {
            if keys_ordered(ns) {
                lemma_node_at(ns, i as int);
            }
        }
        assert(ns[i as int].1 == self.nodes@[i as int].1@);
        let pairs = match &self.nodes[i].1 {
            ArchNode::Object(pairs) => pairs,
            _ => {
                return out;
            },
        };
        let ghost ps = links_view(pairs@);
        let mut j: usize = 0;
        while j < pairs.len()
            invariant
                ps == links_view(pairs@),
                ps.len() == pairs@.len(),
                j <= ps.len(),
                links_view(out@) == links_from_name(ps.take(j as int), name@),
            decreases ps.len() - j,
        {
            let ghost pre = out@;
            assert(ps.take(j + 1).drop_last() =~= ps.take(j as int));
            assert(ps.take(j + 1).last() == ps[j as int]);
            if !bytes_lt(pairs[j].0.as_str().as_bytes(), name.as_bytes()) {
                let copy = pairs[j].0.clone();
                out.push((copy, pairs[j].1));
                assert(links_view(out@) =~= links_view(pre).push(ps[j as int]));
            }
            j = j + 1;
        }
        assert(ps.take(j as int) =~= ps);
        out
    }

    /// The value stored under a table key: a data key reads its node (an
    /// object as [`Node::Object`], a list with its element keys, a leaf with
    /// its scalar decoded); an index key reads nothing. Undecodable leaf bytes
    /// are [`Corrupt`](crate::error::SdbError::Corrupt).
    pub fn fetch(&self, key: &TableKey) -> (r: SdbResult<Option<TableValue>>)
        requires
            leaves_decodable(self@),
        ensures
            key@ is Index ==> r matches Ok(None),
            key@ matches TableKeyView::Data(k) ==> match r {
                Ok(Some(v)) => exists|i: int|
                    0 <= i < self@.len() && (#[trigger] self@[i]).0 == k && node_read(self@[i].1)
                        == Some(v@),
                Ok(None) => keys_ordered(self@) ==> !has_key(self@, k),
                Err(e) => e is Corrupt && exists|i: int|
                    0 <= i < self@.len() && (#[trigger] self@[i]).0 == k && node_read(self@[i].1)
                        is None,
            },
            keys_ordered(self@) ==> (key@ matches TableKeyView::Data(k) ==> match node_at(self@, k) {
                None => r matches Ok(None),
                Some(n) => match node_read(n) {
                    Some(v) => r matches Ok(Some(x)) && x@ == v,
                    None => r matches Err(e) && e is Corrupt,
                },
            }),
    {
        let k = match key {
            TableKey::Data(k) => *k,
            TableKey::Index { .. } => {
                return Ok(None);
            },
        };
        let i = match self.find(k) {
            Some(i) => i,
            None => {
                return Ok(None);
            },
        };
        let ghost ns = self@;
        proof {
            if keys_ordered(ns) {
                lemma_node_at(ns, i as int);
            }
        }
        assert(ns[i as int].1 == self.nodes@[i as int].1@);
        let node = match &self.nodes[i].1 {
            ArchNode::Object(_) => Node::Object,
            ArchNode::List(items) => Node::List(copy_keys(items)),
            ArchNode::Leaf(bytes) => {
                assert(ns[i as int].1 matches ArchNodeView::Leaf(b) ==> !scalar_decode_panics(b));
                let mut r = Reader::new(bytes.as_slice());
                let s = Scalar::decode(&mut r)?;
                Node::Leaf(s)
            },
        };
        Ok(Some(TableValue::Node(node)))
    }

    /// Every `(key, node)` of the entity, materialized in stored order; the
    /// first undecodable leaf is [`Corrupt`](crate::error::SdbError::Corrupt).
    pub fn entries(&self) -> (r: SdbResult<Vec<(Skey, NodeSnapshot)>>)
        requires
            leaves_decodable(self@),
        ensures
            r is Ok <==> forall|i: int| 0 <= i < self@.len() ==> snapshot_of((#[trigger] self@[i]).1) is Some,
            r matches Ok(v) ==> v@.len() == self@.len() && forall|i: int|
                0 <= i < self@.len() ==> (#[trigger] v@[i]).0@ == self@[i].0 && snapshot_of(self@[i].1)
                    == Some(v@[i].1@),
            r matches Err(e) ==> e is Corrupt,
    {
        let ghost ns = self@;
        let mut out: Vec<(Skey, NodeSnapshot)> = Vec::new();
        let mut i: usize = 0;
        while i < self.nodes.len()
            invariant
                ns == self@,
                ns.len() == self.nodes@.len(),
                leaves_decodable(ns),
                i <= ns.len(),
                out@.len() == i,
                forall|j: int|
                    0 <= j < i ==> (#[trigger] out@[j]).0@ == ns[j].0 && snapshot_of(ns[j].1) == Some(
                        out@[j].1@,
                    ),
            decreases ns.len() - i,
        {
            assert(ns[i as int] == (self.nodes@[i as int].0@, self.nodes@[i as int].1@));
            let snap = match view_of(&self.nodes[i].1) {
                Ok(s) => s,
                Err(e) => {
                    assert(snapshot_of(ns[i as int].1) is None);
                    return Err(e);
                },
            };
            let ghost pre = out@;
            out.push((self.nodes[i].0, snap));
            assert(out@[i as int].0@ == ns[i as int].0);
            assert forall|j: int| 0 <= j < i + 1 implies (#[trigger] out@[j]).0@ == ns[j].0
                && snapshot_of(ns[j].1) == Some(out@[j].1@) by {
                if j < i {
                    assert(out@[j] == pre[j]);
                }
            }
            i = i + 1;
        }
        assert forall|j: int| 0 <= j < ns.len() implies snapshot_of((#[trigger] ns[j]).1) is Some by {
            assert(snapshot_of(ns[j].1) == Some(out@[j].1@));
        }
        Ok(out)
    }
}

/// Whether a field name comes at or after `name` in UTF-8 byte order.
pub open spec fn at_or_after(field: Seq<char>, name: Seq<char>) -> bool {
    !lex_lt(encode_utf8(field), encode_utf8(name))
}

/// A scan of an object's links from `name` keeps exactly the fields at or
/// after `name`, in their stored order: the field named `name` itself and
/// every later one are in, every earlier one is out.
pub proof fn lemma_links_from_exact(ps: Seq<(Seq<char>, u128)>, name: Seq<char>)
    ensures
        links_from_name(ps, name) == ps.filter(|p: (Seq<char>, u128)| at_or_after(p.0, name)),
        forall|j: int| 0 <= j < ps.len() && at_or_after(ps[j].0, name) ==> links_from_name(
            ps,
            name,
        ).contains(#[trigger] ps[j]),
        forall|j: int| 0 <= j < ps.len() && ps[j].0 == name ==> links_from_name(ps, name).contains(
            #[trigger] ps[j],
        ),
        forall|x: (Seq<char>, u128)| #[trigger]
            links_from_name(ps, name).contains(x) ==> ps.contains(x) && at_or_after(x.0, name),
    decreases ps.len(),
{
    let f = |p: (Seq<char>, u128)| at_or_after(p.0, name);
    if ps.len() > 0 {
        let init = ps.drop_last();
        lemma_links_from_exact(init, name);
        let r = links_from_name(ps, name);
        let ri = links_from_name(init, name);
        assert(r == ps.filter(f)) by {
            reveal(Seq::filter);
            assert(ps.filter(f) == if f(ps.last()) {
                init.filter(f).push(ps.last())
            } else {
                init.filter(f)
            });
        }
        assert forall|j: int| 0 <= j < ps.len() && at_or_after(ps[j].0, name) implies r.contains(
            #[trigger] ps[j],
        ) by {
            if j < ps.len() - 1 {
                assert(init[j] == ps[j]);
                assert(ri.contains(init[j]));
                let t = choose|t: int| 0 <= t < ri.len() && ri[t] == init[j];
                if at_or_after(ps.last().0, name) {
                    assert(r[t] == ps[j]);
                }
            } else {
                assert(r[r.len() - 1] == ps.last());
            }
        }
        assert forall|j: int| 0 <= j < ps.len() && ps[j].0 == name implies r.contains(
            #[trigger] ps[j],
        ) by {
            if lex_lt(encode_utf8(ps[j].0), encode_utf8(name)) {
                lemma_lex_asym(encode_utf8(ps[j].0), encode_utf8(name));
            }
            assert(at_or_after(ps[j].0, name));
        }
        assert forall|x: (Seq<char>, u128)| #[trigger] r.contains(x) implies ps.contains(x)
            && at_or_after(x.0, name) by {
            let t = choose|t: int| 0 <= t < r.len() && r[t] == x;
            if t < ri.len() && (r == ri || r == ri.push(ps.last())) {
                assert(ri[t] == x);
                assert(ri.contains(x));
                let u = choose|u: int| 0 <= u < init.len() && init[u] == x;
                assert(ps[u] == x);
            } else {
                assert(x == ps.last());
                assert(ps[ps.len() - 1] == x);
            }
        }
    }
}

} // verus!
