//! JSON rendering of a [`Value`].

use crate::export::scalar::{float_text_free, no_float_text, text_fixed, scalar_text, total, write_scalar, FloatBits};
use crate::export::string::{quote, quoted};
use crate::text::{push_char, push_str};
use crate::value::{
    entries_nesting, items_nesting, lemma_entries_nesting, lemma_items_nesting,
    lemma_renderable_children, nesting, renderable, Value, float_free, all_float_free,
    fields_float_free, lemma_float_free_children,
};
use vstd::prelude::*;

verus! {

/// `n` spaces.
pub open spec fn spaces(n: nat) -> Seq<char> {
    Seq::new(n, |i: int| ' ')
}

/// Compact JSON: no whitespace at all.
pub open spec fn compact_text(v: Value, ft: spec_fn(FloatBits) -> Seq<char>) -> Seq<char>
    decreases v, 0nat,
{
    match v {
        Value::Leaf(s) => scalar_text(s@, ft),
        Value::List(items) => seq!['['] + items_compact(items@, items@.len(), ft) + seq![']'],
        Value::Node(entries) => seq!['{'] + entries_compact(entries@, entries@.len(), ft) + seq![
            '}',
        ],
    }
}

/// The first `n` items in compact form, separated by commas.
pub open spec fn items_compact(items: Seq<Value>, n: nat, ft: spec_fn(FloatBits) -> Seq<char>) -> Seq<
    char,
>
    decreases items, n,
{
    if n == 0 || n > items.len() {
        Seq::empty()
    } else {
        let sep = if n == 1 {
            Seq::empty()
        } else {
            seq![',']
        };
        items_compact(items, (n - 1) as nat, ft) + sep + compact_text(items[n - 1], ft)
    }
}

/// The first `n` fields in compact form (`"name":value`), separated by commas.
pub open spec fn entries_compact(
    entries: Seq<(String, Value)>,
    n: nat,
    ft: spec_fn(FloatBits) -> Seq<char>,
) -> Seq<char>
    decreases entries, n,
{
    if n == 0 || n > entries.len() {
        Seq::empty()
    } else {
        let sep = if n == 1 {
            Seq::empty()
        } else {
            seq![',']
        };
        entries_compact(entries, (n - 1) as nat, ft) + sep + quoted(entries[n - 1].0@) + seq![':']
            + compact_text(entries[n - 1].1, ft)
    }
}

/// `parts` in order with `sep` between every two neighbours.
pub open spec fn joined(parts: Seq<Seq<char>>, sep: Seq<char>) -> Seq<char>
    decreases parts.len(),
{
    if parts.len() == 0 {
        Seq::empty()
    } else if parts.len() == 1 {
        parts[0]
    } else {
        parts[0] + sep + joined(parts.drop_first(), sep)
    }
}

proof fn lemma_joined_push(parts: Seq<Seq<char>>, x: Seq<char>, sep: Seq<char>)
    requires
        parts.len() >= 1,
    ensures
        joined(parts.push(x), sep) == joined(parts, sep) + sep + x,
    decreases parts.len(),
{
    let px = parts.push(x);
    assert(px[0] == parts[0]);
    if parts.len() == 1 {
        assert(px.drop_first() =~= seq![x]);
        assert(joined(seq![x], sep) == x);
        assert(joined(px, sep) =~= joined(parts, sep) + sep + x);
    } else {
        assert(px.drop_first() =~= parts.drop_first().push(x));
        lemma_joined_push(parts.drop_first(), x, sep);
        assert(joined(px, sep) =~= joined(parts, sep) + sep + x);
    }
}

/// The compact texts of the first `n` items.
pub open spec fn item_texts(items: Seq<Value>, n: nat, ft: spec_fn(FloatBits) -> Seq<char>) -> Seq<
    Seq<char>,
> {
    Seq::new(n, |k: int| compact_text(items[k], ft))
}

/// The compact texts of the first `n` fields, `"name":value`.
pub open spec fn field_texts(
    entries: Seq<(String, Value)>,
    n: nat,
    ft: spec_fn(FloatBits) -> Seq<char>,
) -> Seq<Seq<char>> {
    Seq::new(n, |k: int| quoted(entries[k].0@) + seq![':'] + compact_text(entries[k].1, ft))
}

proof fn lemma_items_joined(items: Seq<Value>, n: nat, ft: spec_fn(FloatBits) -> Seq<char>)
    requires
        n <= items.len(),
    ensures
        items_compact(items, n, ft) == joined(item_texts(items, n, ft), seq![',']),
    decreases n,
{
    if n >= 1 {
        lemma_items_joined(items, (n - 1) as nat, ft);
        if n == 1 {
            assert(item_texts(items, 1, ft) =~= seq![compact_text(items[0], ft)]);
            assert(items_compact(items, 0, ft) =~= Seq::<char>::empty());
            assert(items_compact(items, 1, ft) =~= compact_text(items[0], ft));
        } else {
            assert(item_texts(items, n, ft) =~= item_texts(items, (n - 1) as nat, ft).push(
                compact_text(items[n - 1], ft),
            ));
            lemma_joined_push(item_texts(items, (n - 1) as nat, ft), compact_text(items[n - 1], ft), seq![',']);
        }
    } else {
        assert(item_texts(items, 0, ft) =~= Seq::<Seq<char>>::empty());
    }
}

proof fn lemma_fields_joined(entries: Seq<(String, Value)>, n: nat, ft: spec_fn(FloatBits) -> Seq<char>)
    requires
        n <= entries.len(),
    ensures
        entries_compact(entries, n, ft) == joined(field_texts(entries, n, ft), seq![',']),
    decreases n,
{
    if n >= 1 {
        lemma_fields_joined(entries, (n - 1) as nat, ft);
        let last = quoted(entries[n - 1].0@) + seq![':'] + compact_text(entries[n - 1].1, ft);
        if n == 1 {
            assert(field_texts(entries, 1, ft) =~= seq![last]);
            assert(entries_compact(entries, 0, ft) =~= Seq::<char>::empty());
            assert(entries_compact(entries, 1, ft) =~= last);
        } else {
            assert(field_texts(entries, n, ft) =~= field_texts(entries, (n - 1) as nat, ft).push(
                last,
            ));
            lemma_joined_push(field_texts(entries, (n - 1) as nat, ft), last, seq![',']);
            assert(entries_compact(entries, n, ft) =~= entries_compact(entries, (n - 1) as nat, ft)
                + seq![','] + last);
        }
    } else {
        assert(field_texts(entries, 0, ft) =~= Seq::<Seq<char>>::empty());
    }
}

/// Compact JSON of a container is its elements' compact texts joined by
/// single commas, between brackets: `[a,b,c]` and `{"x":a,"y":b}`.
pub proof fn lemma_compact_joins(v: Value, ft: spec_fn(FloatBits) -> Seq<char>)
    ensures
        v matches Value::List(items) ==> compact_text(v, ft) == seq!['['] + joined(
            item_texts(items@, items@.len(), ft),
            seq![','],
        ) + seq![']'],
        v matches Value::Node(entries) ==> compact_text(v, ft) == seq!['{'] + joined(
            field_texts(entries@, entries@.len(), ft),
            seq![','],
        ) + seq!['}'],
{
    match v {
        Value::List(items) => lemma_items_joined(items@, items@.len(), ft),
        Value::Node(entries) => lemma_fields_joined(entries@, entries@.len(), ft),
        _ => {},
    }
}

/// Pretty JSON at nesting `depth`, indenting by `step` spaces per level: a
/// non-empty container puts each element on a line of its own, an empty one
/// stays `[]` or `{}`.
pub open spec fn pretty_text(
    v: Value,
    step: nat,
    depth: nat,
    ft: spec_fn(FloatBits) -> Seq<char>,
) -> Seq<char>
    decreases v, 0nat,
{
    match v {
        Value::Leaf(s) => scalar_text(s@, ft),
        Value::List(items) => if items@.len() == 0 {
            seq!['[', ']']
        } else {
            seq!['[', '\n'] + items_pretty(items@, items@.len(), step, depth, ft) + seq!['\n']
                + spaces(step * depth) + seq![']']
        },
        Value::Node(entries) => if entries@.len() == 0 {
            seq!['{', '}']
        } else {
            seq!['{', '\n'] + entries_pretty(entries@, entries@.len(), step, depth, ft) + seq![
                '\n',
            ] + spaces(step * depth) + seq!['}']
        },
    }
}

/// The first `n` items of a list at `depth`, each on its own line.
pub open spec fn items_pretty(
    items: Seq<Value>,
    n: nat,
    step: nat,
    depth: nat,
    ft: spec_fn(FloatBits) -> Seq<char>,
) -> Seq<char>
    decreases items, n,
{
    if n == 0 || n > items.len() {
        Seq::empty()
    } else {
        let sep = if n == 1 {
            Seq::empty()
        } else {
            seq![',', '\n']
        };
        items_pretty(items, (n - 1) as nat, step, depth, ft) + sep + spaces(step * (depth + 1))
            + pretty_text(items[n - 1], step, depth + 1, ft)
    }
}

/// The first `n` fields of an object at `depth`, each on its own line.
pub open spec fn entries_pretty(
    entries: Seq<(String, Value)>,
    n: nat,
    step: nat,
    depth: nat,
    ft: spec_fn(FloatBits) -> Seq<char>,
) -> Seq<char>
    decreases entries, n,
{
    if n == 0 || n > entries.len() {
        Seq::empty()
    } else {
        let sep = if n == 1 {
            Seq::empty()
        } else {
            seq![',', '\n']
        };
        entries_pretty(entries, (n - 1) as nat, step, depth, ft) + sep + spaces(
            step * (depth + 1),
        ) + quoted(entries[n - 1].0@) + seq![':', ' '] + pretty_text(
            entries[n - 1].1,
            step,
            depth + 1,
            ft,
        )
    }
}

/// The lines of the first `n` items of a pretty list at `depth`.
pub open spec fn item_lines(
    items: Seq<Value>,
    n: nat,
    step: nat,
    depth: nat,
    ft: spec_fn(FloatBits) -> Seq<char>,
) -> Seq<Seq<char>> {
    Seq::new(n, |k: int| spaces(step * (depth + 1)) + pretty_text(items[k], step, depth + 1, ft))
}

/// The lines of the first `n` fields of a pretty object at `depth`.
pub open spec fn field_lines(
    entries: Seq<(String, Value)>,
    n: nat,
    step: nat,
    depth: nat,
    ft: spec_fn(FloatBits) -> Seq<char>,
) -> Seq<Seq<char>> {
    Seq::new(
        n,
        |k: int|
            spaces(step * (depth + 1)) + quoted(entries[k].0@) + seq![':', ' '] + pretty_text(
                entries[k].1,
                step,
                depth + 1,
                ft,
            ),
    )
}

proof fn lemma_items_pretty_joined(
    items: Seq<Value>,
    n: nat,
    step: nat,
    depth: nat,
    ft: spec_fn(FloatBits) -> Seq<char>,
)
    requires
        n <= items.len(),
    ensures
        items_pretty(items, n, step, depth, ft) == joined(
            item_lines(items, n, step, depth, ft),
            seq![',', '\n'],
        ),
    decreases n,
{
    if n >= 1 {
        lemma_items_pretty_joined(items, (n - 1) as nat, step, depth, ft);
        let last = spaces(step * (depth + 1)) + pretty_text(items[n - 1], step, depth + 1, ft);
        if n == 1 {
            assert(item_lines(items, 1, step, depth, ft) =~= seq![last]);
            assert(items_pretty(items, 1, step, depth, ft) =~= last);
        } else {
            assert(item_lines(items, n, step, depth, ft) =~= item_lines(
                items,
                (n - 1) as nat,
                step,
                depth,
                ft,
            ).push(last));
            lemma_joined_push(item_lines(items, (n - 1) as nat, step, depth, ft), last, seq![',', '\n']);
            assert(items_pretty(items, n, step, depth, ft) =~= items_pretty(
                items,
                (n - 1) as nat,
                step,
                depth,
                ft,
            ) + seq![',', '\n'] + last);
        }
    } else {
        assert(item_lines(items, 0, step, depth, ft) =~= Seq::<Seq<char>>::empty());
    }
}

proof fn lemma_fields_pretty_joined(
    entries: Seq<(String, Value)>,
    n: nat,
    step: nat,
    depth: nat,
    ft: spec_fn(FloatBits) -> Seq<char>,
)
    requires
        n <= entries.len(),
    ensures
        entries_pretty(entries, n, step, depth, ft) == joined(
            field_lines(entries, n, step, depth, ft),
            seq![',', '\n'],
        ),
    decreases n,
{
    if n >= 1 {
        lemma_fields_pretty_joined(entries, (n - 1) as nat, step, depth, ft);
        let last = spaces(step * (depth + 1)) + quoted(entries[n - 1].0@) + seq![':', ' ']
            + pretty_text(entries[n - 1].1, step, depth + 1, ft);
        if n == 1 {
            assert(field_lines(entries, 1, step, depth, ft) =~= seq![last]);
            assert(entries_pretty(entries, 1, step, depth, ft) =~= last);
        } else {
            assert(field_lines(entries, n, step, depth, ft) =~= field_lines(
                entries,
                (n - 1) as nat,
                step,
                depth,
                ft,
            ).push(last));
            lemma_joined_push(field_lines(entries, (n - 1) as nat, step, depth, ft), last, seq![',', '\n']);
            assert(entries_pretty(entries, n, step, depth, ft) =~= entries_pretty(
                entries,
                (n - 1) as nat,
                step,
                depth,
                ft,
            ) + seq![',', '\n'] + last);
        }
    } else {
        assert(field_lines(entries, 0, step, depth, ft) =~= Seq::<Seq<char>>::empty());
    }
}

/// Pretty JSON of a non-empty container at `depth` puts each element on a
/// line of its own, indented one step deeper than the closing bracket, the
/// lines joined by `,` and a newline: `[\n  a,\n  b\n]`.
pub proof fn lemma_pretty_joins(v: Value, step: nat, depth: nat, ft: spec_fn(FloatBits) -> Seq<char>)
    ensures
        v matches Value::List(items) ==> (items@.len() > 0 ==> pretty_text(v, step, depth, ft)
            == seq!['[', '\n'] + joined(item_lines(items@, items@.len(), step, depth, ft), seq![',', '\n'])
            + seq!['\n'] + spaces(step * depth) + seq![']']),
        v matches Value::Node(entries) ==> (entries@.len() > 0 ==> pretty_text(v, step, depth, ft)
            == seq!['{', '\n'] + joined(field_lines(entries@, entries@.len(), step, depth, ft), seq![',', '\n'])
            + seq!['\n'] + spaces(step * depth) + seq!['}']),
{
    match v {
        Value::List(items) => lemma_items_pretty_joined(items@, items@.len(), step, depth, ft),
        Value::Node(entries) => lemma_fields_pretty_joined(entries@, entries@.len(), step, depth, ft),
        _ => {},
    }
}

/// The JSON document for `v`: compact for `None`, pretty with `n` spaces per
/// level for `Some(n)`.
pub open spec fn json_text(
    v: Value,
    indent: Option<usize>,
    ft: spec_fn(FloatBits) -> Seq<char>,
) -> Seq<char> {
    match indent {
        Some(step) => pretty_text(v, step as nat, 0, ft),
        None => compact_text(v, ft),
    }
}

/// Renders `value` as a JSON document. `indent` selects the layout: `None`
/// yields compact JSON (no whitespace), `Some(n)` pretty-prints it with `n`
/// spaces of indentation per nesting level. `float_text` renders finite
/// floats.
pub fn to_json<F: Fn(FloatBits) -> String>(
    value: &Value,
    indent: Option<usize>,
    float_text: &F,
) -> (s: String)
    requires
        renderable(*value),
        total(*float_text),
        indent matches Some(step) ==> nesting(*value) <= usize::MAX && step * nesting(*value)
            <= usize::MAX,
    ensures
        forall|ft: spec_fn(FloatBits) -> Seq<char>| #[trigger]
            text_fixed(*float_text, ft, float_free(*value)) ==> s@ == json_text(*value, indent, ft),
        float_free(*value) ==> s@ == json_text(*value, indent, no_float_text()),
{
    let mut out = String::new();
    match indent {
        Some(step) => pretty(&mut out, value, step, 0, float_text),
        None => compact(&mut out, value, float_text),
    }
    out
}

/// Renders `value` as JSON when every part of it can be rendered (see
/// [`renderable`]), and gives `None` otherwise.
pub fn try_to_json<F: Fn(FloatBits) -> String>(
    value: &Value,
    indent: Option<usize>,
    float_text: &F,
) -> (r: Option<String>)
    requires
        total(*float_text),
        indent matches Some(step) ==> nesting(*value) <= usize::MAX && step * nesting(*value)
            <= usize::MAX,
    ensures
        r is None <==> !renderable(*value),
        r matches Some(s) ==> forall|ft: spec_fn(FloatBits) -> Seq<char>| #[trigger]
            text_fixed(*float_text, ft, float_free(*value)) ==> s@ == json_text(*value, indent, ft),
        r matches Some(s) ==> (float_free(*value) ==> s@ == json_text(
            *value,
            indent,
            no_float_text(),
        )),
{
    if value.is_renderable() {
        Some(to_json(value, indent, float_text))
    } else {
        None
    }
}

/// Appends `value` as compact JSON.
pub fn compact<F: Fn(FloatBits) -> String>(out: &mut String, value: &Value, float_text: &F)
    requires
        renderable(*value),
        total(*float_text),
    ensures
        forall|ft: spec_fn(FloatBits) -> Seq<char>| #[trigger]
            text_fixed(*float_text, ft, float_free(*value)) ==> final(out)@ == old(out)@ + compact_text(*value, ft),
        float_free(*value) ==> final(out)@ == old(out)@ + compact_text(*value, no_float_text()),
    decreases value,
{
    proof {
        lemma_renderable_children(*value);
        if float_free(*value) {
            lemma_float_free_children(*value);
        }
    }
    match value {
        Value::Leaf(scalar) => write_scalar(out, scalar, float_text),
        Value::List(items) => {
            push_char(out, '[');
            compact_items(out, items, float_text);
            push_char(out, ']');
        },
        Value::Node(entries) => {
            push_char(out, '{');
            compact_entries(out, entries, float_text);
            push_char(out, '}');
        },
    }
    proof {
        assert forall|ft: spec_fn(FloatBits) -> Seq<char>| #[trigger]
            text_fixed(*float_text, ft, float_free(*value)) implies final(out)@ == old(out)@ + compact_text(
            *value,
            ft,
        ) by {
            match value {
                Value::List(items) => assert(text_fixed(*float_text, ft, all_float_free(items@))),
                Value::Node(entries) => assert(text_fixed(*float_text, ft, fields_float_free(entries@))),
                Value::Leaf(x) => assert(text_fixed(*float_text, ft, float_text_free(x@))),
            }
            assert(final(out)@ =~= old(out)@ + compact_text(*value, ft));
        }
        if float_free(*value) {
            assert(text_fixed(*float_text, no_float_text(), float_free(*value)));
        }
    }
}

/// Appends list items as compact JSON, separated by commas.
fn compact_items<F: Fn(FloatBits) -> String>(out: &mut String, items: &Vec<Value>, float_text: &F)
    requires
        forall|k: int| 0 <= k < items@.len() ==> #[trigger] renderable(items@[k]),
        total(*float_text),
    ensures
        forall|ft: spec_fn(FloatBits) -> Seq<char>| #[trigger]
            text_fixed(*float_text, ft, all_float_free(items@)) ==> final(out)@ == old(out)@ + items_compact(
                items@,
                items@.len(),
                ft,
            ),
    decreases items,
{
    let ghost start = out@;
    let mut i: usize = 0;
    while i < items.len()
        invariant
            i <= items@.len(),
            total(*float_text),
            forall|k: int| 0 <= k < items@.len() ==> #[trigger] renderable(items@[k]),
            forall|ft: spec_fn(FloatBits) -> Seq<char>| #[trigger]
                text_fixed(*float_text, ft, all_float_free(items@)) ==> out@ == start + items_compact(items@, i as nat, ft),
        decreases items@.len() - i,
    {
        if i > 0 {
            push_char(out, ',');
        }
        compact(out, &items[i], float_text);
        assert forall|ft: spec_fn(FloatBits) -> Seq<char>| #[trigger]
            text_fixed(*float_text, ft, all_float_free(items@)) implies out@ == start + items_compact(
            items@,
            (i + 1) as nat,
            ft,
        ) by {
            assert(text_fixed(*float_text, ft, float_free(items@[i as int])));
            assert(out@ =~= start + items_compact(items@, (i + 1) as nat, ft));
        }
        i = i + 1;
    }
}

/// Appends object fields as compact JSON (`"name":value`), separated by
/// commas.
fn compact_entries<F: Fn(FloatBits) -> String>(
    out: &mut String,
    entries: &Vec<(String, Value)>,
    float_text: &F,
)
    requires
        forall|k: int| 0 <= k < entries@.len() ==> #[trigger] renderable(entries@[k].1),
        total(*float_text),
    ensures
        forall|ft: spec_fn(FloatBits) -> Seq<char>| #[trigger]
            text_fixed(*float_text, ft, fields_float_free(entries@)) ==> final(out)@ == old(out)@ + entries_compact(
                entries@,
                entries@.len(),
                ft,
            ),
    decreases entries,
{
    let ghost start = out@;
    let mut i: usize = 0;
    while i < entries.len()
        invariant
            i <= entries@.len(),
            total(*float_text),
            forall|k: int| 0 <= k < entries@.len() ==> #[trigger] renderable(entries@[k].1),
            forall|ft: spec_fn(FloatBits) -> Seq<char>| #[trigger]
                text_fixed(*float_text, ft, fields_float_free(entries@)) ==> out@ == start + entries_compact(
                    entries@,
                    i as nat,
                    ft,
                ),
        decreases entries@.len() - i,
    {
        if i > 0 {
            push_char(out, ',');
        }
        quote(out, entries[i].0.as_str());
        push_char(out, ':');
        compact(out, &entries[i].1, float_text);
        assert forall|ft: spec_fn(FloatBits) -> Seq<char>| #[trigger]
            text_fixed(*float_text, ft, fields_float_free(entries@)) implies out@ == start + entries_compact(
            entries@,
            (i + 1) as nat,
            ft,
        ) by {
            assert(text_fixed(*float_text, ft, float_free(entries@[i as int].1)));
            assert(out@ =~= start + entries_compact(entries@, (i + 1) as nat, ft));
        }
        i = i + 1;
    }
}

/// Appends `count` spaces.
pub fn pad(out: &mut String, count: usize)
    ensures
        final(out)@ == old(out)@ + spaces(count as nat),
{
    let mut i: usize = 0;
    while i < count
        invariant
            i <= count,
            out@ == old(out)@ + spaces(i as nat),
        decreases count - i,
    {
        push_char(out, ' ');
        i = i + 1;
        assert(out@ =~= old(out)@ + spaces(i as nat));
    }
}

/// Appends `value` as pretty JSON at nesting `depth`, `step` spaces per level.
pub fn pretty<F: Fn(FloatBits) -> String>(
    out: &mut String,
    value: &Value,
    step: usize,
    depth: usize,
    float_text: &F,
)
    requires
        renderable(*value),
        total(*float_text),
        depth + nesting(*value) <= usize::MAX,
        step * (depth + nesting(*value)) <= usize::MAX,
    ensures
        forall|ft: spec_fn(FloatBits) -> Seq<char>| #[trigger]
            text_fixed(*float_text, ft, float_free(*value)) ==> final(out)@ == old(out)@ + pretty_text(
                *value,
                step as nat,
                depth as nat,
                ft,
            ),
        float_free(*value) ==> final(out)@ == old(out)@ + pretty_text(
            *value,
            step as nat,
            depth as nat,
            no_float_text(),
        ),
    decreases value,
{
    proof {
        lemma_renderable_children(*value);
        if float_free(*value) {
            lemma_float_free_children(*value);
        }
        reveal_strlit("[]");
        reveal_strlit("{}");
        reveal_strlit("[\n");
        reveal_strlit("{\n");
    }
    let ghost n = nesting(*value);
    match value {
        Value::Leaf(scalar) => write_scalar(out, scalar, float_text),
        Value::List(items) => {
            if items.len() == 0 {
                push_str(out, "[]");
            } else {
                push_str(out, "[\n");
                pretty_items(out, items, step, depth, float_text);
                push_char(out, '\n');
                assert(step * depth <= step * (depth + n)) by (nonlinear_arith);
                pad(out, step * depth);
                push_char(out, ']');
            }
        },
        Value::Node(entries) => {
            if entries.len() == 0 {
                push_str(out, "{}");
            } else {
                push_str(out, "{\n");
                pretty_entries(out, entries, step, depth, float_text);
                push_char(out, '\n');
                assert(step * depth <= step * (depth + n)) by (nonlinear_arith);
                pad(out, step * depth);
                push_char(out, '}');
            }
        },
    }
    proof {
        assert forall|ft: spec_fn(FloatBits) -> Seq<char>| #[trigger]
            text_fixed(*float_text, ft, float_free(*value)) implies final(out)@ == old(out)@ + pretty_text(
            *value,
            step as nat,
            depth as nat,
            ft,
        ) by {
            match value {
                Value::List(items) => assert(text_fixed(*float_text, ft, all_float_free(items@))),
                Value::Node(entries) => assert(text_fixed(*float_text, ft, fields_float_free(entries@))),
                Value::Leaf(x) => assert(text_fixed(*float_text, ft, float_text_free(x@))),
            }
            assert(final(out)@ =~= old(out)@ + pretty_text(*value, step as nat, depth as nat, ft));
        }
        if float_free(*value) {
            assert(text_fixed(*float_text, no_float_text(), float_free(*value)));
        }
    }
}

/// Appends the items of a non-empty list at `depth`, one per line, each
/// indented one level deeper.
fn pretty_items<F: Fn(FloatBits) -> String>(
    out: &mut String,
    items: &Vec<Value>,
    step: usize,
    depth: usize,
    float_text: &F,
)
    requires
        items@.len() > 0,
        forall|k: int| 0 <= k < items@.len() ==> #[trigger] renderable(items@[k]),
        total(*float_text),
        depth + 1 + items_nesting(items@, items@.len()) <= usize::MAX,
        step * (depth + 1 + items_nesting(items@, items@.len())) <= usize::MAX,
    ensures
        forall|ft: spec_fn(FloatBits) -> Seq<char>| #[trigger]
            text_fixed(*float_text, ft, all_float_free(items@)) ==> final(out)@ == old(out)@ + items_pretty(
                items@,
                items@.len(),
                step as nat,
                depth as nat,
                ft,
            ),
    decreases items,
{
    let ghost m = items_nesting(items@, items@.len());
    assert(step * (depth + 1) <= step * (depth + 1 + m)) by (nonlinear_arith);
    let ghost start = out@;
    let mut i: usize = 0;
    while i < items.len()
        invariant
            i <= items@.len(),
            total(*float_text),
            m == items_nesting(items@, items@.len()),
            depth + 1 + m <= usize::MAX,
            step * (depth + 1 + m) <= usize::MAX,
            step * (depth + 1) <= step * (depth + 1 + m),
            forall|k: int| 0 <= k < items@.len() ==> #[trigger] renderable(items@[k]),
            forall|ft: spec_fn(FloatBits) -> Seq<char>| #[trigger]
                text_fixed(*float_text, ft, all_float_free(items@)) ==> out@ == start + items_pretty(
                    items@,
                    i as nat,
                    step as nat,
                    depth as nat,
                    ft,
                ),
        decreases items@.len() - i,
    {
        if i > 0 {
            push_str(out, ",\n");
            proof {
                reveal_strlit(",\n");
            }
        }
        pad(out, step * (depth + 1));
        proof {
            lemma_items_nesting(items@, items@.len(), i as int);
            let c = nesting(items@[i as int]);
            assert(step * (depth + 1 + c) <= step * (depth + 1 + m)) by (nonlinear_arith)
                requires
                    c <= m,
            ;
        }
        pretty(out, &items[i], step, depth + 1, float_text);
        assert forall|ft: spec_fn(FloatBits) -> Seq<char>| #[trigger]
            text_fixed(*float_text, ft, all_float_free(items@)) implies out@ == start + items_pretty(
            items@,
            (i + 1) as nat,
            step as nat,
            depth as nat,
            ft,
        ) by {
            assert(text_fixed(*float_text, ft, float_free(items@[i as int])));
            assert(out@ =~= start + items_pretty(
                items@,
                (i + 1) as nat,
                step as nat,
                depth as nat,
                ft,
            ));
        }
        i = i + 1;
    }
}

/// Appends the fields of a non-empty object at `depth`, one per line, each
/// indented one level deeper.
fn pretty_entries<F: Fn(FloatBits) -> String>(
    out: &mut String,
    entries: &Vec<(String, Value)>,
    step: usize,
    depth: usize,
    float_text: &F,
)
    requires
        entries@.len() > 0,
        forall|k: int| 0 <= k < entries@.len() ==> #[trigger] renderable(entries@[k].1),
        total(*float_text),
        depth + 1 + entries_nesting(entries@, entries@.len()) <= usize::MAX,
        step * (depth + 1 + entries_nesting(entries@, entries@.len())) <= usize::MAX,
    ensures
        forall|ft: spec_fn(FloatBits) -> Seq<char>| #[trigger]
            text_fixed(*float_text, ft, fields_float_free(entries@)) ==> final(out)@ == old(out)@ + entries_pretty(
                entries@,
                entries@.len(),
                step as nat,
                depth as nat,
                ft,
            ),
    decreases entries,
{
    let ghost m = entries_nesting(entries@, entries@.len());
    assert(step * (depth + 1) <= step * (depth + 1 + m)) by (nonlinear_arith);
    let ghost start = out@;
    let mut i: usize = 0;
    while i < entries.len()
        invariant
            i <= entries@.len(),
            total(*float_text),
            m == entries_nesting(entries@, entries@.len()),
            depth + 1 + m <= usize::MAX,
            step * (depth + 1 + m) <= usize::MAX,
            step * (depth + 1) <= step * (depth + 1 + m),
            forall|k: int| 0 <= k < entries@.len() ==> #[trigger] renderable(entries@[k].1),
            forall|ft: spec_fn(FloatBits) -> Seq<char>| #[trigger]
                text_fixed(*float_text, ft, fields_float_free(entries@)) ==> out@ == start + entries_pretty(
                    entries@,
                    i as nat,
                    step as nat,
                    depth as nat,
                    ft,
                ),
        decreases entries@.len() - i,
    {
        if i > 0 {
            push_str(out, ",\n");
            proof {
                reveal_strlit(",\n");
            }
        }
        pad(out, step * (depth + 1));
        quote(out, entries[i].0.as_str());
        push_str(out, ": ");
        proof {
            reveal_strlit(": ");
            lemma_entries_nesting(entries@, entries@.len(), i as int);
            let c = nesting(entries@[i as int].1);
            assert(step * (depth + 1 + c) <= step * (depth + 1 + m)) by (nonlinear_arith)
                requires
                    c <= m,
            ;
        }
        pretty(out, &entries[i].1, step, depth + 1, float_text);
        assert forall|ft: spec_fn(FloatBits) -> Seq<char>| #[trigger]
            text_fixed(*float_text, ft, fields_float_free(entries@)) implies out@ == start + entries_pretty(
            entries@,
            (i + 1) as nat,
            step as nat,
            depth as nat,
            ft,
        ) by {
            assert(text_fixed(*float_text, ft, float_free(entries@[i as int].1)));
            assert(out@ =~= start + entries_pretty(
                entries@,
                (i + 1) as nat,
                step as nat,
                depth as nat,
                ft,
            ));
        }
        i = i + 1;
    }
}

} // verus!
