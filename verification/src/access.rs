//! The decisions the read cursors share: which part of an absolute path a
//! packed entity's reader resolves, and what a path-addressed scalar read
//! answers for the node it lands on.

use crate::engine::node::{node_kind, Node, NodeKind};
use crate::error::{corrupt, SdbError, SdbResult};
use crate::path::{SPath, Segment, SegmentView};
use crate::scalar::Scalar;
use vstd::prelude::*;

verus! {

/// `path` with the prefix `base` taken off, when it starts with `base`.
pub open spec fn rebased(base: Seq<SegmentView>, path: Seq<SegmentView>) -> Option<Seq<SegmentView>> {
    if base.len() <= path.len() && path.take(base.len() as int) == base {
        Some(path.skip(base.len() as int))
    } else {
        None
    }
}

/// The path a packed entity's reader resolves inside its blob: accessors
/// address by absolute path, so the reader's own `base` is stripped first; a
/// path that does not start with `base` cannot resolve there.
pub fn rebase(base: &SPath, path: &SPath) -> (r: Option<SPath>)
    ensures
        match rebased(base@, path@) {
            Some(p) => r matches Some(x) && x@ == p,
            None => r is None,
        },
{
    let b = base.segments();
    let s = path.segments();
    if s.len() < b.len() {
        return None;
    }
    let mut i: usize = 0;
    while i < b.len()
        invariant
            b@.map_values(|x: Segment| x@) == base@,
            s@.map_values(|x: Segment| x@) == path@,
            b@.len() <= s@.len(),
            i <= b@.len(),
            forall|j: int| 0 <= j < i ==> #[trigger] path@[j] == base@[j],
        decreases b@.len() - i,
    {
        assert(base@[i as int] == b@[i as int]@);
        assert(path@[i as int] == s@[i as int]@);
        if !s[i].same_as(&b[i]) {
            proof {
                assert(path@.take(base@.len() as int)[i as int] == path@[i as int]);
            }
            return None;
        }
        i = i + 1;
    }
    assert(path@.take(base@.len() as int) =~= base@);
    let mut rest: Vec<Segment> = Vec::new();
    let mut j: usize = b.len();
    while j < s.len()
        invariant
            s@.map_values(|x: Segment| x@) == path@,
            b@.len() <= j <= s@.len(),
            rest@.map_values(|x: Segment| x@) == path@.subrange(b@.len() as int, j as int),
        decreases s@.len() - j,
    {
        let ghost pre = rest@;
        rest.push(s[j].duplicate());
        assert(rest@.map_values(|x: Segment| x@) =~= pre.map_values(|x: Segment| x@).push(path@[j as int]));
        j = j + 1;
        assert(rest@.map_values(|x: Segment| x@) =~= path@.subrange(b@.len() as int, j as int));
    }
    assert(path@.subrange(b@.len() as int, j as int) =~= path@.skip(base@.len() as int));
    Some(SPath::from_segments(rest))
}

/// What a scalar read at `path` answers for the node `node` it resolved to: a
/// leaf's scalar; another kind of node is
/// [`UnexpectedNode`](SdbError::UnexpectedNode) (a leaf was expected); a key
/// with no node behind it is [`Corrupt`](SdbError::Corrupt).
pub fn leaf_scalar(path: &SPath, node: Option<Node>) -> (r: SdbResult<Scalar>)
    ensures
        match node {
            Some(Node::Leaf(s)) => r matches Ok(x) && x@ == s@,
            Some(other) => r matches Err(SdbError::UnexpectedNode { path: p, expected, found }) && p@
                == path@ && expected == "leaf" && found == crate::engine::node::kind_name(
                node_kind(other@),
            ),
            None => r matches Err(e) && e is Corrupt,
        },
{
    match node {
        Some(Node::Leaf(s)) => Ok(s),
        Some(other) => Err(SdbError::UnexpectedNode {
            path: path.duplicate(),
            expected: "leaf",
            found: other.kind().as_str(),
        }),
        None => Err(corrupt("path resolves to a missing node")),
    }
}

/// The same decision made on the node's kind alone, before its scalar is
/// read: `Ok` exactly for a leaf.
pub fn expect_leaf(path: &SPath, kind: Option<NodeKind>) -> (r: SdbResult<()>)
    ensures
        match kind {
            Some(NodeKind::Leaf) => r is Ok,
            Some(other) => r matches Err(SdbError::UnexpectedNode { path: p, expected, found }) && p@
                == path@ && expected == "leaf" && found == crate::engine::node::kind_name(other),
            None => r matches Err(e) && e is Corrupt,
        },
{
    match kind {
        Some(NodeKind::Leaf) => Ok(()),
        Some(other) => Err(SdbError::UnexpectedNode {
            path: path.duplicate(),
            expected: "leaf",
            found: other.as_str(),
        }),
        None => Err(corrupt("path resolves to a missing node")),
    }
}

} // verus!
