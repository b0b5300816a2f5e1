//! Stored tree nodes and their kinds.

use crate::error::{corrupt, SdbResult};
use crate::key::Skey;
use crate::scalar::{Scalar, ScalarView};
use vstd::prelude::*;

verus! {

pub const OBJECT_TAG: u8 = 0;
pub const LIST_TAG: u8 = 1;
pub const LEAF_TAG: u8 = 2;
pub const PACKED_TAG: u8 = 3;

/// The kind of a node in the tree.
#[derive(Clone, Copy, PartialEq, Eq, Debug)]
pub enum NodeKind {
    /// A node whose children are named fields.
    Object,
    /// A node whose children are ordered elements.
    List,
    /// A node holding one scalar.
    Leaf,
}

/// The tag byte a node kind is stored as.
pub open spec fn kind_tag(k: NodeKind) -> u8 {
    match k {
        NodeKind::Object => OBJECT_TAG,
        NodeKind::List => LIST_TAG,
        NodeKind::Leaf => LEAF_TAG,
    }
}

/// The kind a tag byte names, if any.
pub open spec fn kind_of_tag(t: u8) -> Option<NodeKind> {
    if t == OBJECT_TAG {
        Some(NodeKind::Object)
    } else if t == LIST_TAG {
        Some(NodeKind::List)
    } else if t == LEAF_TAG {
        Some(NodeKind::Leaf)
    } else {
        None
    }
}

/// The name a node kind is reported under.
pub open spec fn kind_name(k: NodeKind) -> &'static str {
    match k {
        NodeKind::Object => "object",
        NodeKind::List => "list",
        NodeKind::Leaf => "leaf",
    }
}

impl NodeKind {
    /// The tag byte this kind is stored as.
    pub fn as_tag(self) -> (t: u8)
        ensures
            t == kind_tag(self),
    {
        match self {
            NodeKind::Object => OBJECT_TAG,
            NodeKind::List => LIST_TAG,
            NodeKind::Leaf => LEAF_TAG,
        }
    }

    /// The kind a tag byte names, or `Corrupt` for any other byte.
    pub fn from_tag(t: u8) -> (r: SdbResult<NodeKind>)
        ensures
            match kind_of_tag(t) {
                Some(k) => r matches Ok(x) && x == k,
                None => r matches Err(e) && e is Corrupt,
            },
    {
        if t == OBJECT_TAG {
            Ok(NodeKind::Object)
        } else if t == LIST_TAG {
            Ok(NodeKind::List)
        } else if t == LEAF_TAG {
            Ok(NodeKind::Leaf)
        } else {
            Err(corrupt("unknown node kind"))
        }
    }

    /// The name this kind is reported under in errors.
    pub fn as_str(self) -> (s: &'static str)
        ensures
            s == kind_name(self),
    {
        match self {
            NodeKind::Object => "object",
            NodeKind::List => "list",
            NodeKind::Leaf => "leaf",
        }
    }
}

/// A stored node.
#[derive(Clone, Debug)]
pub enum Node {
    /// An object; its children are stored as separate child links.
    Object,
    /// A list: the keys of its elements, in order.
    List(Vec<Skey>),
    /// A leaf holding one scalar.
    Leaf(Scalar),
    /// A packed entity: a whole subtree serialized as one blob, tagged with
    /// the kind of its root.
    Packed { root: NodeKind, blob: Vec<u8> },
}

/// The mathematical form of a [`Node`].
pub enum NodeView {
    Object,
    List(Seq<u128>),
    Leaf(ScalarView),
    Packed(NodeKind, Seq<u8>),
}

impl View for Node {
    type V = NodeView;

    open spec fn view(&self) -> NodeView {
        match self {
            Node::Object => NodeView::Object,
            Node::List(items) => NodeView::List(items@.map_values(|k: Skey| k@)),
            Node::Leaf(s) => NodeView::Leaf(s@),
            Node::Packed { root, blob } => NodeView::Packed(*root, blob@),
        }
    }
}

/// The kind of a node (a packed node reports its root's kind).
pub open spec fn node_kind(n: NodeView) -> NodeKind {
    match n {
        NodeView::Object => NodeKind::Object,
        NodeView::List(_) => NodeKind::List,
        NodeView::Leaf(_) => NodeKind::Leaf,
        NodeView::Packed(k, _) => k,
    }
}

impl Node {
    /// A new node with the same content.
    pub fn duplicate(&self) -> (r: Node)
        ensures
            r@ == self@,
    {
        match self {
            Node::Object => Node::Object,
            Node::List(keys) => {
                let mut c: Vec<Skey> = Vec::new();
                let mut i: usize = 0;
                while i < keys.len()
                    invariant
                        i <= keys@.len(),
                        c@.map_values(|k: Skey| k@) == keys@.map_values(|k: Skey| k@).take(i as int),
                    decreases keys@.len() - i,
                {
                    let k = Skey::from_u128(keys[i].as_u128());
                    let ghost pre = c@;
                    c.push(k);
                    assert(c@.map_values(|k: Skey| k@) =~= pre.map_values(|k: Skey| k@).push(k@));
                    i = i + 1;
                    assert(c@.map_values(|k: Skey| k@) =~= keys@.map_values(|k: Skey| k@).take(i as int));
                }
                assert(keys@.map_values(|k: Skey| k@).take(i as int) =~= keys@.map_values(|k: Skey| k@));
                Node::List(c)
            },
            Node::Leaf(s) => Node::Leaf(s.duplicate()),
            Node::Packed { root, blob } => {
                let c = blob.clone();
                assert(c@ =~= blob@);
                Node::Packed { root: *root, blob: c }
            },
        }
    }

    /// The kind of this node; a packed node reports its root's kind.
    pub fn kind(&self) -> (k: NodeKind)
        ensures
            k == node_kind(self@),
    {
        match self {
            Node::Object => NodeKind::Object,
            Node::List(_) => NodeKind::List,
            Node::Leaf(_) => NodeKind::Leaf,
            Node::Packed { root, .. } => *root,
        }
    }
}

} // verus!
