//! The [`JsonExporter`] / [`YamlExporter`] traits and their implementation for
//! an in-memory [`Value`].

use crate::error::{SdbError, SdbResult};
use crate::export::json::{json_text, to_json};
use crate::export::scalar::{no_float_text, text_fixed, total, FloatBits};
use crate::export::yaml::{to_yaml, yaml_text};
use crate::path::{SPath, SegmentView};
use crate::scalar::Scalar;
use crate::value::{float_free, nesting, renderable, subtree_at, Value};
use vstd::prelude::*;

verus! {

/// The subtree `path` addresses can be rendered, and is shallow enough for
/// the chosen indentation to be counted in a `usize`.
pub open spec fn json_exportable(v: Value, path: Seq<SegmentView>, indent: Option<usize>) -> bool {
    match subtree_at(v, path) {
        Some(t) => renderable(t) && match indent {
            Some(step) => nesting(t) <= usize::MAX && step * nesting(t) <= usize::MAX,
            None => true,
        },
        None => true,
    }
}

/// The subtree `path` addresses can be rendered as YAML.
pub open spec fn yaml_exportable(v: Value, path: Seq<SegmentView>) -> bool {
    match subtree_at(v, path) {
        Some(t) => renderable(t) && 2 * nesting(t) <= usize::MAX,
        None => true,
    }
}

/// Renders a document to JSON.
///
/// Object fields come out in sorted order. Scalars without a native JSON form
/// take a textual one: dates and times as ISO 8601 / RFC 3339, a UUID
/// hyphenated, raw bytes as Base64, a duration as its number of seconds, the
/// non-finite floats as `null`. A `path` that resolves to no node errors with
/// [`PathNotFound`](SdbError::PathNotFound).
pub trait JsonExporter {
    /// The document can be exported at `path` with `indent`.
    spec fn can_export_json(&self, path: Seq<SegmentView>, indent: Option<usize>) -> bool;

    /// Exports the subtree at `path` as a JSON document. `indent` selects the
    /// layout: `None` yields compact JSON (no whitespace), `Some(n)`
    /// pretty-prints it with `n` spaces of indentation per nesting level.
    /// `float_text` gives the decimal form of a finite float.
    fn export_to_json<F: Fn(FloatBits) -> String>(
        &self,
        path: &SPath,
        indent: Option<usize>,
        float_text: &F,
    ) -> SdbResult<String>
        requires
            self.can_export_json(path@, indent),
            total(*float_text),
    ;
}

/// Renders a document to YAML, in block style.
///
/// Object fields come out in sorted order and every string is double-quoted;
/// scalar rendering and the missing-path behaviour match
/// [`JsonExporter::export_to_json`].
pub trait YamlExporter {
    /// The document can be exported at `path`.
    spec fn can_export_yaml(&self, path: Seq<SegmentView>) -> bool;

    /// Exports the subtree at `path` as a YAML document (block style).
    fn export_to_yaml<F: Fn(FloatBits) -> String>(
        &self,
        path: &SPath,
        float_text: &F,
    ) -> SdbResult<String>
        requires
            self.can_export_yaml(path@),
            total(*float_text),
    ;
}

impl JsonExporter for Value {
    open spec fn can_export_json(&self, path: Seq<SegmentView>, indent: Option<usize>) -> bool {
        json_exportable(*self, path, indent)
    }

    fn export_to_json<F: Fn(FloatBits) -> String>(
        &self,
        path: &SPath,
        indent: Option<usize>,
        float_text: &F,
    ) -> (r: SdbResult<String>)
        ensures
            match subtree_at(*self, path@) {
                Some(t) => r matches Ok(s) && (forall|ft: spec_fn(FloatBits) -> Seq<char>|
                    #[trigger] text_fixed(*float_text, ft, float_free(t)) ==> s@ == json_text(t, indent, ft))
                    && (float_free(t) ==> s@ == json_text(t, indent, no_float_text())),
                None => r matches Err(SdbError::PathNotFound(p)) && p@ == path@,
            },
    {
        let v = navigate(self, path)?;
        Ok(to_json(v, indent, float_text))
    }
}

impl YamlExporter for Value {
    open spec fn can_export_yaml(&self, path: Seq<SegmentView>) -> bool {
        yaml_exportable(*self, path)
    }

    fn export_to_yaml<F: Fn(FloatBits) -> String>(
        &self,
        path: &SPath,
        float_text: &F,
    ) -> (r: SdbResult<String>)
        ensures
            match subtree_at(*self, path@) {
                Some(t) => r matches Ok(s) && (forall|ft: spec_fn(FloatBits) -> Seq<char>|
                    #[trigger] text_fixed(*float_text, ft, float_free(t)) ==> s@ == yaml_text(t, ft))
                    && (float_free(t) ==> s@ == yaml_text(t, no_float_text())),
                None => r matches Err(SdbError::PathNotFound(p)) && p@ == path@,
            },
    {
        let v = navigate(self, path)?;
        Ok(to_yaml(v, float_text))
    }
}

/// Resolves `base` within an in-memory [`Value`] to the addressed subtree, or
/// [`PathNotFound`](SdbError::PathNotFound) if a segment leads nowhere. The
/// root path returns the whole value.
pub fn navigate<'v>(value: &'v Value, base: &SPath) -> (r: SdbResult<&'v Value>)
    ensures
        match subtree_at(*value, base@) {
            Some(t) => r matches Ok(x) && *x == t,
            None => r matches Err(SdbError::PathNotFound(p)) && p@ == base@,
        },
{
    match value.subtree(base) {
        Some(v) => Ok(v),
        None => Err(SdbError::PathNotFound(base.duplicate())),
    }
}

/// The value a read transaction renders for `base`, given what the read
/// found there: the resolved subtree, or, for the root of an empty table, a
/// `null` leaf. Any other absent path is [`PathNotFound`](SdbError::PathNotFound).
pub fn txn_value(read: Option<Value>, base: &SPath) -> (r: SdbResult<Value>)
    ensures
        match read {
            Some(v) => r matches Ok(x) && x == v,
            None => if base@.len() == 0 {
                r matches Ok(x) && x == Value::Leaf(Scalar::Null)
            } else {
                r matches Err(SdbError::PathNotFound(p)) && p@ == base@
            },
        },
{
    match read {
        Some(value) => Ok(value),
        None => {
            if base.is_root() {
                Ok(Value::Leaf(Scalar::Null))
            } else {
                Err(SdbError::PathNotFound(base.duplicate()))
            }
        },
    }
}

} // verus!
