//! [`SIndexed`]: the secondary indexes a type declares.

use crate::index::definitions::index::IndexDef;
use vstd::prelude::*;

verus! {

/// A type that declares secondary indexes.
///
/// The type fixes each index's schema: its name, columns (in priority order,
/// each ascending or descending) and uniqueness. [`index_defs`](SIndexed::index_defs)
/// pairs that schema with a scope, a path `pattern`, giving ready-to-create
/// [`IndexDef`]s.
///
/// `pattern` is a slash-separated path pattern naming which nodes are the
/// indexed entities: a `*` segment matches any single child, every other
/// segment matches literally (a list index such as `items[0]` is allowed), and
/// `*` spans exactly one level. `"users/*"` makes every direct child of
/// `users` an entity, so a column `age` indexes each `users/<id>/age`; the
/// empty string scopes the index to the table root itself.
pub trait SIndexed {
    /// The indexes declared on this type, each scoped to `pattern`.
    fn index_defs(pattern: &str) -> Vec<IndexDef>;
}

} // verus!
