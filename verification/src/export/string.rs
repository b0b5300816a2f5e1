//! Double-quoted string rendering, shared by the JSON and YAML writers: the
//! JSON escapes are a valid subset of YAML's double-quoted scalar escapes.

use crate::text::{hex_digits, push_char, push_str};
use vstd::prelude::*;

verus! {

/// The escaped form of one character inside a double-quoted string.
pub open spec fn escape_char(c: char) -> Seq<char> {
    if c == '"' {
        seq!['\\', '"']
    } else if c == '\\' {
        seq!['\\', '\\']
    } else if c == '\n' {
        seq!['\\', 'n']
    } else if c == '\r' {
        seq!['\\', 'r']
    } else if c == '\t' {
        seq!['\\', 't']
    } else if c == '\u{08}' {
        seq!['\\', 'b']
    } else if c == '\u{0C}' {
        seq!['\\', 'f']
    } else if (c as u32) < 0x20 {
        seq!['\\', 'u'] + hex_digits((c as u32) as nat, 4)
    } else {
        seq![c]
    }
}

/// Every character of `s`, escaped.
pub open spec fn escaped(s: Seq<char>) -> Seq<char>
    decreases s.len(),
{
    if s.len() == 0 {
        Seq::empty()
    } else {
        escaped(s.drop_last()) + escape_char(s.last())
    }
}

/// `s` between double quotes, escaped.
pub open spec fn quoted(s: Seq<char>) -> Seq<char> {
    seq!['"'] + escaped(s) + seq!['"']
}

/// Appends the four lowercase hex digits of a control character.
fn push_hex4(out: &mut String, v: u32)
    requires
        v < 0x10000,
    ensures
        final(out)@ == old(out)@ + hex_digits(v as nat, 4),
{
    let a = v / 16;
    let b = a / 16;
    let c = b / 16;
    push_char(out, hex_digit(c % 16));
    push_char(out, hex_digit(b % 16));
    push_char(out, hex_digit(a % 16));
    push_char(out, hex_digit(v % 16));
    proof {
        reveal_with_fuel(hex_digits, 5);
        assert(final(out)@ =~= old(out)@ + hex_digits(v as nat, 4));
    }
}

/// The lowercase character of hex digit `d`.
fn hex_digit(d: u32) -> (c: char)
    requires
        d < 16,
    ensures
        c == crate::text::hex_char(d as nat),
{
    if d < 10 {
        ((d + 48) as u8) as char
    } else {
        ((d + 87) as u8) as char
    }
}

/// Appends `s` to `out` as a double-quoted, escaped string.
pub fn quote(out: &mut String, s: &str)
    ensures
        final(out)@ == old(out)@ + quoted(s@),
{
    push_char(out, '"');
    let ghost start = out@;
    for c in it: s.chars()
        invariant
            it.seq() == s@,
            out@ == start + escaped(s@.take(it.index())),
    {
        let ghost before = out@;
        if c == '"' {
            push_str(out, "\\\"");
        } else if c == '\\' {
            push_str(out, "\\\\");
        } else if c == '\n' {
            push_str(out, "\\n");
        } else if c == '\r' {
            push_str(out, "\\r");
        } else if c == '\t' {
            push_str(out, "\\t");
        } else if c == '\u{08}' {
            push_str(out, "\\b");
        } else if c == '\u{0C}' {
            push_str(out, "\\f");
        } else if (c as u32) < 0x20 {
            push_str(out, "\\u");
            push_hex4(out, c as u32);
        } else {
            push_char(out, c);
        }
        proof {
            reveal_strlit("\\\"");
            reveal_strlit("\\\\");
            reveal_strlit("\\n");
            reveal_strlit("\\r");
            reveal_strlit("\\t");
            reveal_strlit("\\b");
            reveal_strlit("\\f");
            reveal_strlit("\\u");
            let t = s@.take(it.index() + 1);
            assert(t.drop_last() =~= s@.take(it.index()));
            assert(out@ =~= before + escape_char(c));
        }
    }
    assert(s@.take(s@.len() as int) =~= s@);
    assert(out@ == start + escaped(s@));
    push_char(out, '"');
    assert(final(out)@ =~= old(out)@ + quoted(s@));
}

} // verus!
