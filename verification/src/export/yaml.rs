//! YAML rendering of a [`Value`], in block style.

use crate::export::json::{pad, spaces};
use crate::export::scalar::{float_text_free, no_float_text, text_fixed, scalar_text, total, write_scalar, FloatBits};
use crate::export::string::{quote, quoted};
use crate::text::{push_char, push_str};
use crate::value::{
    entries_nesting, items_nesting, lemma_entries_nesting, lemma_items_nesting,
    lemma_renderable_children, nesting, renderable, Value, float_free, all_float_free,
    fields_float_free, lemma_float_free_children,
};
use vstd::prelude::*;

verus! {

/// A value on a single line: a scalar, or an empty container's flow form.
pub open spec fn inline_text(v: Value, ft: spec_fn(FloatBits) -> Seq<char>) -> Seq<char> {
    match v {
        Value::Leaf(s) => scalar_text(s@, ft),
        Value::List(_) => seq!['[', ']'],
        Value::Node(_) => seq!['{', '}'],
    }
}

/// Whether `v` is a container with at least one element, which opens a block.
pub open spec fn opens_block(v: Value) -> bool {
    match v {
        Value::Leaf(_) => false,
        Value::List(items) => items@.len() > 0,
        Value::Node(entries) => entries@.len() > 0,
    }
}

/// What follows a `key:` or `-` marker: a non-empty container opens on the
/// next line, indented one level (two spaces) deeper; anything else stays
/// inline after a single space. Either way the entry ends with a newline.
pub open spec fn child_text(v: Value, indent: nat, ft: spec_fn(FloatBits) -> Seq<char>) -> Seq<
    char,
>
    decreases v, 0nat,
{
    match v {
        Value::Node(entries) => if entries@.len() > 0 {
            seq!['\n'] + object_text(entries@, entries@.len(), indent + 2, ft)
        } else {
            seq![' '] + inline_text(v, ft) + seq!['\n']
        },
        Value::List(items) => if items@.len() > 0 {
            seq!['\n'] + list_text(items@, items@.len(), indent + 2, ft)
        } else {
            seq![' '] + inline_text(v, ft) + seq!['\n']
        },
        Value::Leaf(_) => seq![' '] + inline_text(v, ft) + seq!['\n'],
    }
}

/// The first `n` fields of an object at `indent`: `"name":` and the value.
pub open spec fn object_text(
    entries: Seq<(String, Value)>,
    n: nat,
    indent: nat,
    ft: spec_fn(FloatBits) -> Seq<char>,
) -> Seq<char>
    decreases entries, n,
{
    if n == 0 || n > entries.len() {
        Seq::empty()
    } else {
        object_text(entries, (n - 1) as nat, indent, ft) + spaces(indent) + quoted(
            entries[n - 1].0@,
        ) + seq![':'] + child_text(entries[n - 1].1, indent, ft)
    }
}

/// The first `n` items of a list at `indent`: `-` and the item.
pub open spec fn list_text(
    items: Seq<Value>,
    n: nat,
    indent: nat,
    ft: spec_fn(FloatBits) -> Seq<char>,
) -> Seq<char>
    decreases items, n,
{
    if n == 0 || n > items.len() {
        Seq::empty()
    } else {
        list_text(items, (n - 1) as nat, indent, ft) + spaces(indent) + seq!['-'] + child_text(
            items[n - 1],
            indent,
            ft,
        )
    }
}

/// The YAML document for `v`, in block style, ending with a newline.
pub open spec fn yaml_text(v: Value, ft: spec_fn(FloatBits) -> Seq<char>) -> Seq<char> {
    match v {
        Value::Node(entries) => if entries@.len() > 0 {
            object_text(entries@, entries@.len(), 0, ft)
        } else {
            inline_text(v, ft) + seq!['\n']
        },
        Value::List(items) => if items@.len() > 0 {
            list_text(items@, items@.len(), 0, ft)
        } else {
            inline_text(v, ft) + seq!['\n']
        },
        Value::Leaf(_) => inline_text(v, ft) + seq!['\n'],
    }
}

/// The name of the field reached from `v` by following field positions `at`
/// through nested objects, or `None` when a position leads nowhere.
pub open spec fn field_name_at(v: Value, at: Seq<nat>) -> Option<Seq<char>>
    decreases at.len(),
{
    match v {
        Value::Node(es) => if at.len() >= 1 && at[0] < es@.len() {
            if at.len() == 1 {
                Some(es@[at[0] as int].0@)
            } else {
                field_name_at(es@[at[0] as int].1, at.drop_first())
            }
        } else {
            None
        },
        _ => None,
    }
}

/// `line` begins one of the lines of `text`.
pub open spec fn starts_line(text: Seq<char>, line: Seq<char>) -> bool {
    exists|i: int|
        0 <= i && i + line.len() <= text.len() && #[trigger] text.subrange(i, i + line.len()) == line
            && (i == 0 || text[i - 1] == '\n')
}

/// The line of a field reached through `d` enclosing fields: `2 d` spaces,
/// the quoted name, a colon.
pub open spec fn field_line(d: nat, name: Seq<char>) -> Seq<char> {
    spaces(2 * d) + quoted(name) + seq![':']
}

proof fn lemma_lift_back(a: Seq<char>, b: Seq<char>, line: Seq<char>)
    requires
        starts_line(a, line),
    ensures
        starts_line(a + b, line),
{
    let i = choose|i: int|
        0 <= i && i + line.len() <= a.len() && #[trigger] a.subrange(i, i + line.len()) == line && (
        i == 0 || a[i - 1] == '\n');
    assert((a + b).subrange(i, i + line.len()) =~= a.subrange(i, i + line.len()));
    if i > 0 {
        assert((a + b)[i - 1] == a[i - 1]);
    }
}

proof fn lemma_lift_front(a: Seq<char>, b: Seq<char>, line: Seq<char>)
    requires
        starts_line(b, line),
        line.len() > 0,
        line[0] != '\n',
        a.len() == 0 || a.last() == '\n' || (b.len() > 0 && b[0] == '\n'),
    ensures
        starts_line(a + b, line),
{
    let i = choose|i: int|
        0 <= i && i + line.len() <= b.len() && #[trigger] b.subrange(i, i + line.len()) == line && (
        i == 0 || b[i - 1] == '\n');
    let k = a.len() + i;
    assert((a + b).subrange(k, k + line.len()) =~= b.subrange(i, i + line.len()));
    if i > 0 {
        assert((a + b)[k - 1] == b[i - 1]);
    } else if a.len() > 0 {
        if !(a.last() == '\n') {
            assert(b[0] == line[0]) by {
                assert(b.subrange(0, line.len() as int)[0] == b[0]);
            }
        }
        assert((a + b)[k - 1] == a.last());
    }
}

/// Every entry's text, and so every field and item block, ends its line.
proof fn lemma_child_ends(v: Value, indent: nat, ft: spec_fn(FloatBits) -> Seq<char>)
    ensures
        child_text(v, indent, ft).len() > 0,
        child_text(v, indent, ft).last() == '\n',
    decreases v, 0nat,
{
    match v {
        Value::Node(es) => if es@.len() > 0 {
            lemma_object_ends(es@, es@.len(), indent + 2, ft);
        },
        Value::List(items) => if items@.len() > 0 {
            lemma_list_ends(items@, items@.len(), indent + 2, ft);
        },
        Value::Leaf(_) => {},
    }
}

proof fn lemma_object_ends(
    entries: Seq<(String, Value)>,
    n: nat,
    indent: nat,
    ft: spec_fn(FloatBits) -> Seq<char>,
)
    requires
        1 <= n <= entries.len(),
    ensures
        object_text(entries, n, indent, ft).len() > 0,
        object_text(entries, n, indent, ft).last() == '\n',
    decreases entries, n,
{
    lemma_child_ends(entries[n - 1].1, indent, ft);
}

proof fn lemma_list_ends(items: Seq<Value>, n: nat, indent: nat, ft: spec_fn(FloatBits) -> Seq<char>)
    requires
        1 <= n <= items.len(),
    ensures
        list_text(items, n, indent, ft).len() > 0,
        list_text(items, n, indent, ft).last() == '\n',
    decreases items, n,
{
    lemma_child_ends(items[n - 1], indent, ft);
}

/// A line that begins a line of the first `m` fields still does with more.
proof fn lemma_object_grows(
    entries: Seq<(String, Value)>,
    m: nat,
    n: nat,
    indent: nat,
    ft: spec_fn(FloatBits) -> Seq<char>,
    line: Seq<char>,
)
    requires
        m <= n <= entries.len(),
        starts_line(object_text(entries, m, indent, ft), line),
    ensures
        starts_line(object_text(entries, n, indent, ft), line),
    decreases n,
{
    if m < n {
        lemma_object_grows(entries, m, (n - 1) as nat, indent, ft, line);
        let head = object_text(entries, (n - 1) as nat, indent, ft);
        let tail = spaces(indent) + quoted(entries[n - 1].0@) + seq![':'] + child_text(
            entries[n - 1].1,
            indent,
            ft,
        );
        lemma_lift_back(head, tail, line);
        assert(object_text(entries, n, indent, ft) =~= head + tail);
    }
}

/// The `j`-th field's line, and every line that begins a line of its nested
/// block, begin lines of the object.
proof fn lemma_object_field(
    entries: Seq<(String, Value)>,
    n: nat,
    indent: nat,
    ft: spec_fn(FloatBits) -> Seq<char>,
    j: nat,
    inner: Seq<char>,
)
    requires
        j < n <= entries.len(),
        inner.len() > 0,
        inner[0] != '\n',
    ensures
        starts_line(
            object_text(entries, n, indent, ft),
            spaces(indent) + quoted(entries[j as int].0@) + seq![':'],
        ),
        starts_line(
            object_text(entries, n, indent, ft),
            spaces(indent) + quoted(entries[j as int].0@) + seq![':'] + child_text(
                entries[j as int].1,
                indent,
                ft,
            ),
        ),
        starts_line(child_text(entries[j as int].1, indent, ft), inner) && child_text(
            entries[j as int].1,
            indent,
            ft,
        )[0] == '\n' ==> starts_line(object_text(entries, n, indent, ft), inner),
{
    let head = object_text(entries, j, indent, ft);
    let key = spaces(indent) + quoted(entries[j as int].0@) + seq![':'];
    let child = child_text(entries[j as int].1, indent, ft);
    assert(object_text(entries, j + 1, indent, ft) =~= head + key + child);
    if j > 0 {
        lemma_object_ends(entries, j, indent, ft);
    }
    assert(head.len() == 0 || head.last() == '\n');
    let whole = head + key + child;
    let k = head.len() as int;
    assert(whole.subrange(k, k + key.len()) =~= key);
    if k > 0 {
        assert(whole[k - 1] == head.last());
    }
    assert(starts_line(whole, key));
    lemma_object_grows(entries, j + 1, n, indent, ft, key);
    assert(whole.subrange(k, k + (key + child).len()) =~= key + child);
    assert(starts_line(whole, key + child));
    lemma_object_grows(entries, j + 1, n, indent, ft, key + child);
    if starts_line(child, inner) && child[0] == '\n' {
        lemma_lift_front(head + key, child, inner);
        assert(head + key + child =~= (head + key) + child);
        lemma_object_grows(entries, j + 1, n, indent, ft, inner);
    }
}

/// Nested objects indent their fields one level deeper, two spaces per level:
/// the field reached through `d` enclosing fields starts a line with exactly
/// `indent + 2 d` spaces before its quoted name.
proof fn lemma_nested_field_line(
    v: Value,
    at: Seq<nat>,
    name: Seq<char>,
    indent: nat,
    ft: spec_fn(FloatBits) -> Seq<char>,
)
    requires
        field_name_at(v, at) == Some(name),
    ensures
        v matches Value::Node(es) && es@.len() > 0 && starts_line(
            object_text(es@, es@.len(), indent, ft),
            spaces(indent + 2 * (at.len() - 1) as nat) + quoted(name) + seq![':'],
        ),
    decreases at.len(),
{
    match v {
        Value::Node(es) => {
            let j = at[0];
            let line = spaces(indent + 2 * (at.len() - 1) as nat) + quoted(name) + seq![':'];
            if at.len() == 1 {
                lemma_object_field(es@, es@.len(), indent, ft, j, line);
            } else {
                let rest = at.drop_first();
                let w = es@[j as int].1;
                lemma_nested_field_line(w, rest, name, indent + 2, ft);
                assert((indent + 2 + 2 * (rest.len() - 1)) as nat == (indent + 2 * (at.len() - 1)) as nat);
                match w {
                    Value::Node(sub) => {
                        let body = object_text(sub@, sub@.len(), indent + 2, ft);
                        assert(line[0] == ' ' || line[0] == '"') by {
                            if indent + 2 * (at.len() - 1) as nat > 0 {
                                assert(line[0] == ' ');
                            } else {
                                assert(line[0] == '"');
                            }
                        }
                        lemma_lift_front(seq!['\n'], body, line);
                        assert(child_text(w, indent, ft) == seq!['\n'] + body);
                        lemma_object_field(es@, es@.len(), indent, ft, j, line);
                    },
                    _ => {},
                }
            }
        },
        _ => {},
    }
}

/// YAML block style indents each nested object two spaces per level: the
/// field reached from the document through `at.len() - 1` enclosing fields
/// begins a line with exactly `2 (at.len() - 1)` spaces, then its quoted name
/// and a colon.
pub proof fn lemma_yaml_field_indent(v: Value, at: Seq<nat>, ft: spec_fn(FloatBits) -> Seq<char>)
    requires
        field_name_at(v, at) is Some,
    ensures
        starts_line(
            yaml_text(v, ft),
            field_line((at.len() - 1) as nat, field_name_at(v, at).unwrap()),
        ),
{
    lemma_nested_field_line(v, at, field_name_at(v, at).unwrap(), 0, ft);
    assert((0 + 2 * (at.len() - 1) as nat) as nat == 2 * ((at.len() - 1) as nat));
}

/// The block of a container's elements at `indent` (nothing for a leaf).
pub open spec fn block_text(v: Value, indent: nat, ft: spec_fn(FloatBits) -> Seq<char>) -> Seq<char> {
    match v {
        Value::Node(es) => object_text(es@, es@.len(), indent, ft),
        Value::List(items) => list_text(items@, items@.len(), indent, ft),
        Value::Leaf(_) => Seq::empty(),
    }
}

/// The marker of the element reached from `v` by following positions `at`
/// through nested objects and lists: `"name":` for a field, `-` for an item.
pub open spec fn marker_at(v: Value, at: Seq<nat>) -> Option<Seq<char>>
    decreases at.len(),
{
    if at.len() == 0 {
        None
    } else {
        match v {
            Value::Node(es) => if at[0] < es@.len() {
                if at.len() == 1 {
                    Some(quoted(es@[at[0] as int].0@) + seq![':'])
                } else {
                    marker_at(es@[at[0] as int].1, at.drop_first())
                }
            } else {
                None
            },
            Value::List(items) => if at[0] < items@.len() {
                if at.len() == 1 {
                    Some(seq!['-'])
                } else {
                    marker_at(items@[at[0] as int], at.drop_first())
                }
            } else {
                None
            },
            Value::Leaf(_) => None,
        }
    }
}

/// A line that begins a line of the first `m` items still does with more.
proof fn lemma_list_grows(
    items: Seq<Value>,
    m: nat,
    n: nat,
    indent: nat,
    ft: spec_fn(FloatBits) -> Seq<char>,
    line: Seq<char>,
)
    requires
        m <= n <= items.len(),
        starts_line(list_text(items, m, indent, ft), line),
    ensures
        starts_line(list_text(items, n, indent, ft), line),
    decreases n,
{
    if m < n {
        lemma_list_grows(items, m, (n - 1) as nat, indent, ft, line);
        let head = list_text(items, (n - 1) as nat, indent, ft);
        let tail = spaces(indent) + seq!['-'] + child_text(items[n - 1], indent, ft);
        lemma_lift_back(head, tail, line);
        assert(list_text(items, n, indent, ft) =~= head + tail);
    }
}

/// The `j`-th item's marker line, and every line that begins a line of its
/// nested block, begin lines of the list.
proof fn lemma_list_item(
    items: Seq<Value>,
    n: nat,
    indent: nat,
    ft: spec_fn(FloatBits) -> Seq<char>,
    j: nat,
    inner: Seq<char>,
)
    requires
        j < n <= items.len(),
        inner.len() > 0,
        inner[0] != '\n',
    ensures
        starts_line(list_text(items, n, indent, ft), spaces(indent) + seq!['-']),
        starts_line(
            list_text(items, n, indent, ft),
            spaces(indent) + seq!['-'] + child_text(items[j as int], indent, ft),
        ),
        starts_line(child_text(items[j as int], indent, ft), inner) && child_text(
            items[j as int],
            indent,
            ft,
        )[0] == '\n' ==> starts_line(list_text(items, n, indent, ft), inner),
{
    let head = list_text(items, j, indent, ft);
    let key = spaces(indent) + seq!['-'];
    let child = child_text(items[j as int], indent, ft);
    assert(list_text(items, j + 1, indent, ft) =~= head + key + child);
    if j > 0 {
        lemma_list_ends(items, j, indent, ft);
    }
    let whole = head + key + child;
    let k = head.len() as int;
    assert(whole.subrange(k, k + key.len()) =~= key);
    if k > 0 {
        assert(whole[k - 1] == head.last());
    }
    assert(starts_line(whole, key));
    lemma_list_grows(items, j + 1, n, indent, ft, key);
    assert(whole.subrange(k, k + (key + child).len()) =~= key + child);
    assert(starts_line(whole, key + child));
    lemma_list_grows(items, j + 1, n, indent, ft, key + child);
    if starts_line(child, inner) && child[0] == '\n' {
        lemma_lift_front(head + key, child, inner);
        lemma_list_grows(items, j + 1, n, indent, ft, inner);
    }
}

/// Each level of nesting, object or list, indents two spaces more: the
/// element reached through `at` starts a line of the block at `indent` with
/// `indent + 2 (at.len() - 1)` spaces, then its marker.
proof fn lemma_nested_marker_line(
    v: Value,
    at: Seq<nat>,
    marker: Seq<char>,
    indent: nat,
    ft: spec_fn(FloatBits) -> Seq<char>,
)
    requires
        marker_at(v, at) == Some(marker),
    ensures
        starts_line(block_text(v, indent, ft), spaces(indent + 2 * (at.len() - 1) as nat) + marker),
        opens_block(v),
    decreases at.len(),
{
    let line = spaces(indent + 2 * (at.len() - 1) as nat) + marker;
    let j = at[0];
    assert(marker.len() > 0 && marker[0] != '\n') by {
        lemma_marker_shape(v, at);
    }
    assert(line.len() > 0 && line[0] != '\n') by {
        if indent + 2 * (at.len() - 1) as nat > 0 {
            assert(line[0] == ' ');
        } else {
            assert(line[0] == marker[0]);
        }
    }
    if at.len() == 1 {
        assert(spaces(indent + 2 * (at.len() - 1) as nat) =~= spaces(indent));
        match v {
            Value::Node(es) => {
                lemma_object_field(es@, es@.len(), indent, ft, j, line);
                assert(line =~= spaces(indent) + quoted(es@[j as int].0@) + seq![':']);
            },
            Value::List(items) => {
                lemma_list_item(items@, items@.len(), indent, ft, j, line);
                assert(line =~= spaces(indent) + seq!['-']);
            },
            Value::Leaf(_) => {},
        }
    } else {
        let rest = at.drop_first();
        let w = match v {
            Value::Node(es) => es@[j as int].1,
            Value::List(items) => items@[j as int],
            Value::Leaf(_) => v,
        };
        lemma_nested_marker_line(w, rest, marker, indent + 2, ft);
        assert((indent + 2 + 2 * (rest.len() - 1)) as nat == (indent + 2 * (at.len() - 1)) as nat);
        let body = block_text(w, indent + 2, ft);
        lemma_lift_front(seq!['\n'], body, line);
        assert(child_text(w, indent, ft) == seq!['\n'] + body);
        match v {
            Value::Node(es) => lemma_object_field(es@, es@.len(), indent, ft, j, line),
            Value::List(items) => lemma_list_item(items@, items@.len(), indent, ft, j, line),
            Value::Leaf(_) => {},
        }
    }
}

/// The element reached from `v` by following positions `at` through nested
/// objects and lists.
pub open spec fn element_at(v: Value, at: Seq<nat>) -> Option<Value>
    decreases at.len(),
{
    if at.len() == 0 {
        None
    } else {
        match v {
            Value::Node(es) => if at[0] < es@.len() {
                if at.len() == 1 {
                    Some(es@[at[0] as int].1)
                } else {
                    element_at(es@[at[0] as int].1, at.drop_first())
                }
            } else {
                None
            },
            Value::List(items) => if at[0] < items@.len() {
                if at.len() == 1 {
                    Some(items@[at[0] as int])
                } else {
                    element_at(items@[at[0] as int], at.drop_first())
                }
            } else {
                None
            },
            Value::Leaf(_) => None,
        }
    }
}

/// An element whose value does not open a block sits on one line: its
/// indentation, its marker, a space, the value inline, the line's end.
proof fn lemma_nested_inline_line(
    v: Value,
    at: Seq<nat>,
    marker: Seq<char>,
    w: Value,
    indent: nat,
    ft: spec_fn(FloatBits) -> Seq<char>,
)
    requires
        marker_at(v, at) == Some(marker),
        element_at(v, at) == Some(w),
        !opens_block(w),
    ensures
        starts_line(
            block_text(v, indent, ft),
            spaces(indent + 2 * (at.len() - 1) as nat) + marker + seq![' '] + inline_text(w, ft)
                + seq!['\n'],
        ),
    decreases at.len(),
{
    let line = spaces(indent + 2 * (at.len() - 1) as nat) + marker + seq![' '] + inline_text(w, ft)
        + seq!['\n'];
    let j = at[0];
    lemma_marker_shape(v, at);
    assert(line.len() > 0 && line[0] != '\n') by {
        if indent + 2 * (at.len() - 1) as nat > 0 {
            assert(line[0] == ' ');
        } else {
            assert(line[0] == marker[0]);
        }
    }
    if at.len() == 1 {
        assert(spaces(indent + 2 * (at.len() - 1) as nat) =~= spaces(indent));
        assert(child_text(w, indent, ft) == seq![' '] + inline_text(w, ft) + seq!['\n']);
        match v {
            Value::Node(es) => {
                lemma_object_field(es@, es@.len(), indent, ft, j, line);
                assert(line =~= spaces(indent) + quoted(es@[j as int].0@) + seq![':'] + child_text(
                    w,
                    indent,
                    ft,
                ));
            },
            Value::List(items) => {
                lemma_list_item(items@, items@.len(), indent, ft, j, line);
                assert(line =~= spaces(indent) + seq!['-'] + child_text(w, indent, ft));
            },
            Value::Leaf(_) => {},
        }
    } else {
        let rest = at.drop_first();
        let u = match v {
            Value::Node(es) => es@[j as int].1,
            Value::List(items) => items@[j as int],
            Value::Leaf(_) => v,
        };
        lemma_nested_inline_line(u, rest, marker, w, indent + 2, ft);
        lemma_nested_marker_line(u, rest, marker, indent + 2, ft);
        assert((indent + 2 + 2 * (rest.len() - 1)) as nat == (indent + 2 * (at.len() - 1)) as nat);
        let body = block_text(u, indent + 2, ft);
        lemma_lift_front(seq!['\n'], body, line);
        assert(child_text(u, indent, ft) == seq!['\n'] + body);
        match v {
            Value::Node(es) => lemma_object_field(es@, es@.len(), indent, ft, j, line),
            Value::List(items) => lemma_list_item(items@, items@.len(), indent, ft, j, line),
            Value::Leaf(_) => {},
        }
    }
}

proof fn lemma_marker_shape(v: Value, at: Seq<nat>)
    requires
        marker_at(v, at) is Some,
    ensures
        marker_at(v, at).unwrap().len() > 0,
        marker_at(v, at).unwrap()[0] == '-' || marker_at(v, at).unwrap()[0] == '"',
    decreases at.len(),
{
    if at.len() > 1 {
        match v {
            Value::Node(es) => lemma_marker_shape(es@[at[0] as int].1, at.drop_first()),
            Value::List(items) => lemma_marker_shape(items@[at[0] as int], at.drop_first()),
            Value::Leaf(_) => {},
        }
    }
}

/// YAML block style indents each nested container two spaces per level:
/// the field or item reached from the document through `at` begins a line
/// with exactly `2 (at.len() - 1)` spaces, then its marker (`"name":` or `-`);
/// when its value opens no block, that line goes on with a space and the
/// value inline, and ends there.
pub proof fn lemma_yaml_element_indent(v: Value, at: Seq<nat>, ft: spec_fn(FloatBits) -> Seq<char>)
    requires
        marker_at(v, at) is Some,
    ensures
        starts_line(
            yaml_text(v, ft),
            spaces(2 * ((at.len() - 1) as nat)) + marker_at(v, at).unwrap(),
        ),
        element_at(v, at) matches Some(w) ==> (!opens_block(w) ==> starts_line(
            yaml_text(v, ft),
            spaces(2 * ((at.len() - 1) as nat)) + marker_at(v, at).unwrap() + seq![' ']
                + inline_text(w, ft) + seq!['\n'],
        )),
{
    lemma_nested_marker_line(v, at, marker_at(v, at).unwrap(), 0, ft);
    if let Some(w) = element_at(v, at) {
        if !opens_block(w) {
            lemma_nested_inline_line(v, at, marker_at(v, at).unwrap(), w, 0, ft);
        }
    }
    assert((0 + 2 * (at.len() - 1) as nat) as nat == 2 * ((at.len() - 1) as nat));
}

/// Renders `value` as a YAML document (block style), terminated by a newline.
///
/// Scalars are written on a single line; a non-empty container opens after its
/// `key:` or `-` marker and indents its contents two spaces per level. Strings
/// are always double-quoted, so a string that would otherwise read as a number,
/// a boolean or `null` keeps its string identity. `float_text` renders finite
/// floats.
/// Renders `value` as YAML when every part of it can be rendered (see
/// [`renderable`]), and gives `None` otherwise.
pub fn try_to_yaml<F: Fn(FloatBits) -> String>(value: &Value, float_text: &F) -> (r: Option<String>)
    requires
        total(*float_text),
        2 * nesting(*value) <= usize::MAX,
    ensures
        r is None <==> !renderable(*value),
        r matches Some(s) ==> forall|ft: spec_fn(FloatBits) -> Seq<char>| #[trigger]
            text_fixed(*float_text, ft, float_free(*value)) ==> s@ == yaml_text(*value, ft),
        r matches Some(s) ==> (float_free(*value) ==> s@ == yaml_text(*value, no_float_text())),
{
    if value.is_renderable() {
        Some(to_yaml(value, float_text))
    } else {
        None
    }
}

pub fn to_yaml<F: Fn(FloatBits) -> String>(value: &Value, float_text: &F) -> (s: String)
    requires
        renderable(*value),
        total(*float_text),
        2 * nesting(*value) <= usize::MAX,
    ensures
        forall|ft: spec_fn(FloatBits) -> Seq<char>| #[trigger]
            text_fixed(*float_text, ft, float_free(*value)) ==> s@ == yaml_text(*value, ft),
        float_free(*value) ==> s@ == yaml_text(*value, no_float_text()),
{
    let mut out = String::new();
    proof {
        lemma_renderable_children(*value);
        if float_free(*value) {
            lemma_float_free_children(*value);
        }
    }
    match value {
        Value::Node(entries) => {
            if entries.len() > 0 {
                object(&mut out, entries, 0, float_text);
                proof {
                    assert forall|ft: spec_fn(FloatBits) -> Seq<char>| #[trigger]
                        text_fixed(*float_text, ft, float_free(*value)) implies out@ == yaml_text(
                        *value,
                        ft,
                    ) by {
                        assert(text_fixed(*float_text, ft, fields_float_free(entries@)));
                    }
                    if float_free(*value) {
                        assert(text_fixed(*float_text, no_float_text(), float_free(*value)));
                    }
                }
                return out;
            }
        },
        Value::List(items) => {
            if items.len() > 0 {
                list(&mut out, items, 0, float_text);
                proof {
                    assert forall|ft: spec_fn(FloatBits) -> Seq<char>| #[trigger]
                        text_fixed(*float_text, ft, float_free(*value)) implies out@ == yaml_text(
                        *value,
                        ft,
                    ) by {
                        assert(text_fixed(*float_text, ft, all_float_free(items@)));
                    }
                    if float_free(*value) {
                        assert(text_fixed(*float_text, no_float_text(), float_free(*value)));
                    }
                }
                return out;
            }
        },
        Value::Leaf(_) => {},
    }
    inline(&mut out, value, float_text);
    push_char(&mut out, '\n');
    proof {
        assert forall|ft: spec_fn(FloatBits) -> Seq<char>| #[trigger]
            text_fixed(*float_text, ft, float_free(*value)) implies out@ == yaml_text(*value, ft) by {
            match value {
                Value::List(items) => assert(text_fixed(*float_text, ft, all_float_free(items@))),
                Value::Node(entries) => assert(text_fixed(*float_text, ft, fields_float_free(entries@))),
                Value::Leaf(x) => assert(text_fixed(*float_text, ft, float_text_free(x@))),
            }
            assert(out@ =~= yaml_text(*value, ft));
        }
        if float_free(*value) {
            assert(text_fixed(*float_text, no_float_text(), float_free(*value)));
        }
    }
    out
}

/// Writes the fields of an object at `indent`.
fn object<F: Fn(FloatBits) -> String>(
    out: &mut String,
    entries: &Vec<(String, Value)>,
    indent: usize,
    float_text: &F,
)
    requires
        forall|k: int| 0 <= k < entries@.len() ==> #[trigger] renderable(entries@[k].1),
        total(*float_text),
        indent + 2 * entries_nesting(entries@, entries@.len()) <= usize::MAX,
    ensures
        forall|ft: spec_fn(FloatBits) -> Seq<char>| #[trigger]
            text_fixed(*float_text, ft, fields_float_free(entries@)) ==> final(out)@ == old(out)@ + object_text(
                entries@,
                entries@.len(),
                indent as nat,
                ft,
            ),
    decreases entries,
{
    let ghost start = out@;
    let mut i: usize = 0;
    while i < entries.len()
        invariant
            i <= entries@.len(),
            total(*float_text),
            indent + 2 * entries_nesting(entries@, entries@.len()) <= usize::MAX,
            forall|k: int| 0 <= k < entries@.len() ==> #[trigger] renderable(entries@[k].1),
            forall|ft: spec_fn(FloatBits) -> Seq<char>| #[trigger]
                text_fixed(*float_text, ft, fields_float_free(entries@)) ==> out@ == start + object_text(
                    entries@,
                    i as nat,
                    indent as nat,
                    ft,
                ),
        decreases entries@.len() - i,
    {
        pad(out, indent);
        quote(out, entries[i].0.as_str());
        push_char(out, ':');
        proof {
            lemma_entries_nesting(entries@, entries@.len(), i as int);
        }
        child(out, &entries[i].1, indent, float_text);
        assert forall|ft: spec_fn(FloatBits) -> Seq<char>| #[trigger]
            text_fixed(*float_text, ft, fields_float_free(entries@)) implies out@ == start + object_text(
            entries@,
            (i + 1) as nat,
            indent as nat,
            ft,
        ) by {
            assert(text_fixed(*float_text, ft, float_free(entries@[i as int].1)));
            assert(out@ =~= start + object_text(entries@, (i + 1) as nat, indent as nat, ft));
        }
        i = i + 1;
    }
}

/// Writes the items of a list at `indent`.
fn list<F: Fn(FloatBits) -> String>(
    out: &mut String,
    items: &Vec<Value>,
    indent: usize,
    float_text: &F,
)
    requires
        forall|k: int| 0 <= k < items@.len() ==> #[trigger] renderable(items@[k]),
        total(*float_text),
        indent + 2 * items_nesting(items@, items@.len()) <= usize::MAX,
    ensures
        forall|ft: spec_fn(FloatBits) -> Seq<char>| #[trigger]
            text_fixed(*float_text, ft, all_float_free(items@)) ==> final(out)@ == old(out)@ + list_text(
                items@,
                items@.len(),
                indent as nat,
                ft,
            ),
    decreases items,
{
    let ghost start = out@;
    let mut i: usize = 0;
    while i < items.len()
        invariant
            i <= items@.len(),
            total(*float_text),
            indent + 2 * items_nesting(items@, items@.len()) <= usize::MAX,
            forall|k: int| 0 <= k < items@.len() ==> #[trigger] renderable(items@[k]),
            forall|ft: spec_fn(FloatBits) -> Seq<char>| #[trigger]
                text_fixed(*float_text, ft, all_float_free(items@)) ==> out@ == start + list_text(
                    items@,
                    i as nat,
                    indent as nat,
                    ft,
                ),
        decreases items@.len() - i,
    {
        pad(out, indent);
        push_char(out, '-');
        proof {
            lemma_items_nesting(items@, items@.len(), i as int);
        }
        child(out, &items[i], indent, float_text);
        assert forall|ft: spec_fn(FloatBits) -> Seq<char>| #[trigger]
            text_fixed(*float_text, ft, all_float_free(items@)) implies out@ == start + list_text(
            items@,
            (i + 1) as nat,
            indent as nat,
            ft,
        ) by {
            assert(text_fixed(*float_text, ft, float_free(items@[i as int])));
            assert(out@ =~= start + list_text(items@, (i + 1) as nat, indent as nat, ft));
        }
        i = i + 1;
    }
}

/// Writes the value that follows a `key:` or `-` marker.
fn child<F: Fn(FloatBits) -> String>(
    out: &mut String,
    value: &Value,
    indent: usize,
    float_text: &F,
)
    requires
        renderable(*value),
        total(*float_text),
        indent + 2 * nesting(*value) <= usize::MAX,
    ensures
        forall|ft: spec_fn(FloatBits) -> Seq<char>| #[trigger]
            text_fixed(*float_text, ft, float_free(*value)) ==> final(out)@ == old(out)@ + child_text(
                *value,
                indent as nat,
                ft,
            ),
    decreases value,
{
    proof {
        lemma_renderable_children(*value);
        if float_free(*value) {
            lemma_float_free_children(*value);
        }
    }
    match value {
        Value::Node(entries) => {
            if entries.len() > 0 {
                push_char(out, '\n');
                object(out, entries, indent + 2, float_text);
                proof {
                    assert forall|ft: spec_fn(FloatBits) -> Seq<char>| #[trigger]
                        text_fixed(*float_text, ft, float_free(*value)) implies final(out)@ == old(out)@ + child_text(
                        *value,
                        indent as nat,
                        ft,
                    ) by {
                        match value {
                            Value::List(items) => assert(text_fixed(*float_text, ft, all_float_free(items@))),
                            Value::Node(entries) => assert(text_fixed(*float_text, ft, fields_float_free(entries@))),
                            Value::Leaf(x) => assert(text_fixed(*float_text, ft, float_text_free(x@))),
                        }
                        assert(final(out)@ =~= old(out)@ + child_text(*value, indent as nat, ft));
                    }
                }
                return;
            }
        },
        Value::List(items) => {
            if items.len() > 0 {
                push_char(out, '\n');
                list(out, items, indent + 2, float_text);
                proof {
                    assert forall|ft: spec_fn(FloatBits) -> Seq<char>| #[trigger]
                        text_fixed(*float_text, ft, float_free(*value)) implies final(out)@ == old(out)@ + child_text(
                        *value,
                        indent as nat,
                        ft,
                    ) by {
                        match value {
                            Value::List(items) => assert(text_fixed(*float_text, ft, all_float_free(items@))),
                            Value::Node(entries) => assert(text_fixed(*float_text, ft, fields_float_free(entries@))),
                            Value::Leaf(x) => assert(text_fixed(*float_text, ft, float_text_free(x@))),
                        }
                        assert(final(out)@ =~= old(out)@ + child_text(*value, indent as nat, ft));
                    }
                }
                return;
            }
        },
        Value::Leaf(_) => {},
    }
    push_char(out, ' ');
    inline(out, value, float_text);
    push_char(out, '\n');
    proof {
        assert forall|ft: spec_fn(FloatBits) -> Seq<char>| #[trigger]
            text_fixed(*float_text, ft, float_free(*value)) implies final(out)@ == old(out)@ + child_text(
            *value,
            indent as nat,
            ft,
        ) by {
            match value {
                Value::List(items) => assert(text_fixed(*float_text, ft, all_float_free(items@))),
                Value::Node(entries) => assert(text_fixed(*float_text, ft, fields_float_free(entries@))),
                Value::Leaf(x) => assert(text_fixed(*float_text, ft, float_text_free(x@))),
            }
            assert(final(out)@ =~= old(out)@ + child_text(*value, indent as nat, ft));
        }
    }
}

/// Writes a value on a single line: a scalar leaf, or an empty container as
/// its flow form (`[]` / `{}`).
fn inline<F: Fn(FloatBits) -> String>(out: &mut String, value: &Value, float_text: &F)
    requires
        renderable(*value),
        total(*float_text),
    ensures
        forall|ft: spec_fn(FloatBits) -> Seq<char>| #[trigger]
            text_fixed(*float_text, ft, float_free(*value)) ==> final(out)@ == old(out)@ + inline_text(*value, ft),
{
    proof {
        reveal_strlit("[]");
        reveal_strlit("{}");
    }
    match value {
        Value::Leaf(scalar) => write_scalar(out, scalar, float_text),
        Value::List(_) => push_str(out, "[]"),
        Value::Node(_) => push_str(out, "{}"),
    }
}

} // verus!
