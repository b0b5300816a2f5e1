//! Paths into a table's node tree: a sequence of object-field names and list
//! indices, written `a/b[0]/c`.
//!
//! The text form joins field names with `/` and writes a list position as
//! `[n]` right after what it indexes; the empty text is the root. A name is
//! non-empty and holds no `/`, `[` or `]`; a position is written in decimal
//! without leading zeros.

use crate::error::{SdbError, SdbResult};
use crate::text::{dec_digits, digit_char, push_char, push_decimal, push_str, str_eq};
use vstd::prelude::*;

verus! {

/// One step of a path: an object field or a list position.
#[derive(Clone, Debug, PartialEq, Eq, Hash)]
pub enum Segment {
    /// An object field, by name.
    Name(String),
    /// A list element, by position.
    Index(u64),
}

/// The mathematical form of a [`Segment`].
pub enum SegmentView {
    Name(Seq<char>),
    Index(u64),
}

impl View for Segment {
    type V = SegmentView;

    open spec fn view(&self) -> SegmentView {
        match self {
            Segment::Name(name) => SegmentView::Name(name@),
            Segment::Index(i) => SegmentView::Index(*i),
        }
    }
}

impl Segment {
    /// A new segment with the same content.
    pub fn duplicate(&self) -> (s: Segment)
        ensures
            s@ == self@,
    {
        match self {
            Segment::Name(name) => Segment::Name(name.clone()),
            Segment::Index(k) => Segment::Index(*k),
        }
    }

    /// Whether `other` is the same segment.
    pub fn same_as(&self, other: &Segment) -> (b: bool)
        ensures
            b == (self@ == other@),
    {
        match (self, other) {
            (Segment::Name(a), Segment::Name(b)) => str_eq(a.as_str(), b.as_str()),
            (Segment::Index(a), Segment::Index(b)) => *a == *b,
            _ => false,
        }
    }
}

/// A path from the table root; the empty path is the root itself.
#[derive(Clone, Debug, PartialEq, Eq, Hash)]
pub struct SPath {
    segments: Vec<Segment>,
}

impl View for SPath {
    type V = Seq<SegmentView>;

    closed spec fn view(&self) -> Seq<SegmentView> {
        self.segments@.map_values(|s: Segment| s@)
    }
}

impl SPath {
    /// The root path (no segments).
    pub fn root() -> (p: SPath)
        ensures
            p@ == Seq::<SegmentView>::empty(),
    {
        let p = SPath { segments: Vec::new() };
        assert(p@ =~= Seq::<SegmentView>::empty());
        p
    }

    /// A path made of `segments`, in order.
    pub fn from_segments(segments: Vec<Segment>) -> (p: SPath)
        ensures
            p@ == segments@.map_values(|s: Segment| s@),
    {
        SPath { segments }
    }

    /// The segments, root first.
    pub fn segments(&self) -> (s: &Vec<Segment>)
        ensures
            s@.map_values(|x: Segment| x@) == self@,
    {
        &self.segments
    }

    /// The segments, root first, taken out of the path.
    pub fn into_segments(self) -> (v: Vec<Segment>)
        ensures
            v@.map_values(|x: Segment| x@) == self@,
    {
        self.segments
    }

    /// A new path with the same segments.
    pub fn duplicate(&self) -> (p: SPath)
        ensures
            p@ == self@,
    {
        let mut segments: Vec<Segment> = Vec::new();
        let mut i: usize = 0;
        while i < self.segments.len()
            invariant
                i <= self.segments@.len(),
                segments@.map_values(|s: Segment| s@) == self@.take(i as int),
            decreases self.segments@.len() - i,
        {
            let seg = self.segments[i].duplicate();
            let ghost before = segments@;
            segments.push(seg);
            i = i + 1;
            assert(segments@.map_values(|s: Segment| s@) =~= before.map_values(|s: Segment| s@).push(
                seg@,
            ));
            assert(segments@.map_values(|s: Segment| s@) =~= self@.take(i as int));
        }
        assert(self@.take(i as int) =~= self@);
        SPath { segments }
    }

    /// Whether `other` has the same segments.
    pub fn same_as(&self, other: &SPath) -> (b: bool)
        ensures
            b == (self@ == other@),
    {
        if self.segments.len() != other.segments.len() {
            proof {
                assert(self@.len() != other@.len());
            }
            return false;
        }
        let mut i: usize = 0;
        while i < self.segments.len()
            invariant
                self.segments@.len() == other.segments@.len(),
                i <= self.segments@.len(),
                forall|j: int| 0 <= j < i ==> #[trigger] self@[j] == other@[j],
            decreases self.segments@.len() - i,
        {
            assert(self@[i as int] == self.segments@[i as int]@);
            assert(other@[i as int] == other.segments@[i as int]@);
            let same = self.segments[i].same_as(&other.segments[i]);
            if !same {
                proof {
                    assert(self@[i as int] != other@[i as int]);
                }
                return false;
            }
            i = i + 1;
        }
        proof {
            assert(self@ =~= other@);
        }
        true
    }

    /// Whether this is the root path.
    pub fn is_root(&self) -> (b: bool)
        ensures
            b == (self@.len() == 0),
    {
        self.segments.len() == 0
    }
}


/// The text of one segment: a name (after a `/` unless it starts the path),
/// or `[n]`.
pub open spec fn segment_text(seg: SegmentView, first: bool) -> Seq<char> {
    match seg {
        SegmentView::Name(n) => if first {
            n
        } else {
            seq!['/'] + n
        },
        SegmentView::Index(i) => seq!['['] + dec_digits(i as nat) + seq![']'],
    }
}

/// The text of a path.
pub open spec fn path_text(p: Seq<SegmentView>) -> Seq<char>
    decreases p.len(),
{
    if p.len() == 0 {
        Seq::empty()
    } else {
        path_text(p.drop_last()) + segment_text(p.last(), p.len() == 1)
    }
}

/// A character with a meaning of its own in path text.
pub open spec fn is_special(c: char) -> bool {
    c == '/' || c == '[' || c == ']'
}

/// A field name that path text can carry: non-empty, with no `/`, `[` or `]`.
pub open spec fn name_ok(n: Seq<char>) -> bool {
    n.len() > 0 && forall|i: int| 0 <= i < n.len() ==> !is_special(#[trigger] n[i])
}

/// Every name in the path can be written as text.
pub open spec fn path_ok(p: Seq<SegmentView>) -> bool {
    forall|i: int| 0 <= i < p.len() ==> (#[trigger] p[i] matches SegmentView::Name(n) ==> name_ok(n))
}

/// Where a scan of path text stands.
#[derive(Clone, Copy, Debug, PartialEq, Eq)]
pub enum ScanMode {
    /// At the start of a `/`-separated token.
    Start,
    /// Inside a field name.
    Name,
    /// Inside the digits of a `[n]`.
    Index,
    /// Just after a `]`.
    Closed,
}

/// The state of a scan of path text: the segments finished so far, the mode,
/// the name or number being read, how many digits it has, and whether the
/// text was already found malformed.
pub struct PathScan {
    pub segs: Seq<SegmentView>,
    pub mode: ScanMode,
    pub name: Seq<char>,
    pub num: nat,
    pub digits: nat,
    pub failed: bool,
}

/// The state before any character.
pub open spec fn scan_init() -> PathScan {
    PathScan {
        segs: Seq::empty(),
        mode: ScanMode::Start,
        name: Seq::empty(),
        num: 0,
        digits: 0,
        failed: false,
    }
}

/// The digit value of a decimal digit character.
pub open spec fn digit_value(c: char) -> nat {
    ((c as u32) - 48) as nat
}

/// A decimal digit character.
pub open spec fn is_digit(c: char) -> bool {
    48 <= (c as u32) <= 57
}

/// The scan state after one more character.
pub open spec fn scan_step(st: PathScan, c: char) -> PathScan {
    let fail = PathScan { failed: true, ..st };
    if st.failed {
        st
    } else {
        match st.mode {
            ScanMode::Start => if c == '/' || c == ']' {
                fail
            } else if c == '[' {
                PathScan { mode: ScanMode::Index, num: 0, digits: 0, ..st }
            } else {
                PathScan { mode: ScanMode::Name, name: seq![c], ..st }
            },
            ScanMode::Name => if c == '/' {
                PathScan {
                    segs: st.segs.push(SegmentView::Name(st.name)),
                    mode: ScanMode::Start,
                    name: Seq::empty(),
                    ..st
                }
            } else if c == '[' {
                PathScan {
                    segs: st.segs.push(SegmentView::Name(st.name)),
                    mode: ScanMode::Index,
                    name: Seq::empty(),
                    num: 0,
                    digits: 0,
                    ..st
                }
            } else if c == ']' {
                fail
            } else {
                PathScan { name: st.name.push(c), ..st }
            },
            ScanMode::Index => if is_digit(c) {
                if st.digits >= 1 && st.num == 0 {
                    fail
                } else if st.num * 10 + digit_value(c) > u64::MAX {
                    fail
                } else {
                    PathScan { num: st.num * 10 + digit_value(c), digits: st.digits + 1, ..st }
                }
            } else if c == ']' && st.digits >= 1 {
                PathScan {
                    segs: st.segs.push(SegmentView::Index(st.num as u64)),
                    mode: ScanMode::Closed,
                    ..st
                }
            } else {
                fail
            },
            ScanMode::Closed => if c == '/' {
                PathScan { mode: ScanMode::Start, ..st }
            } else if c == '[' {
                PathScan { mode: ScanMode::Index, num: 0, digits: 0, ..st }
            } else {
                fail
            },
        }
    }
}

/// The scan state after the characters of `s`, starting from `st`.
pub open spec fn scan_from(st: PathScan, s: Seq<char>) -> PathScan
    decreases s.len(),
{
    if s.len() == 0 {
        st
    } else {
        scan_step(scan_from(st, s.drop_last()), s.last())
    }
}

/// The path that `s` spells, or `None` when it is malformed.
pub open spec fn path_parse(s: Seq<char>) -> Option<Seq<SegmentView>> {
    if s.len() == 0 {
        Some(Seq::empty())
    } else {
        let st = scan_from(scan_init(), s);
        if st.failed {
            None
        } else {
            match st.mode {
                ScanMode::Name => Some(st.segs.push(SegmentView::Name(st.name))),
                ScanMode::Closed => Some(st.segs),
                _ => None,
            }
        }
    }
}

impl SPath {
    /// The text form of the path (`a/b[0]/c`; empty for the root).
    pub fn to_string(&self) -> (s: String)
        ensures
            s@ == path_text(self@),
    {
        let mut out = String::new();
        let mut i: usize = 0;
        while i < self.segments.len()
            invariant
                i <= self.segments@.len(),
                out@ == path_text(self@.take(i as int)),
            decreases self.segments@.len() - i,
        {
            match &self.segments[i] {
                Segment::Name(name) => {
                    if i > 0 {
                        push_char(&mut out, '/');
                    }
                    push_str(&mut out, name.as_str());
                },
                Segment::Index(k) => {
                    push_char(&mut out, '[');
                    push_decimal(&mut out, *k as u128);
                    push_char(&mut out, ']');
                },
            }
            proof {
                assert(self@.take(i + 1).drop_last() =~= self@.take(i as int));
            }
            i = i + 1;
        }
        assert(self@.take(i as int) =~= self@);
        out
    }

    /// Parses path text, failing with [`InvalidPath`](SdbError::InvalidPath)
    /// when it is malformed.
    pub fn parse(s: &str) -> (r: SdbResult<SPath>)
        ensures
            match path_parse(s@) {
                Some(p) => r matches Ok(x) && x@ == p,
                None => r matches Err(e) && e is InvalidPath,
            },
    {
        let mut segs: Vec<Segment> = Vec::new();
        let mut mode = ScanMode::Start;
        let mut name = String::new();
        let mut num: u64 = 0;
        let mut digits: u8 = 0;
        let ghost mut count: int = 0;
        for c in it: s.chars()
            invariant
                it.seq() == s@,
                count == it.index(),
                ({
                    let st = scan_from(scan_init(), s@.take(it.index()));
                    &&& !st.failed
                    &&& segs@.map_values(|x: Segment| x@) == st.segs
                    &&& mode == st.mode
                    &&& name@ == st.name
                    &&& num as nat == st.num
                    &&& digits as nat == st.digits
                    &&& digits <= 20
                    &&& digits >= 1 ==> num >= pow10((digits - 1) as nat) || (digits == 1 && num
                        == 0)
                }),
        {
            let ghost before = scan_from(scan_init(), s@.take(count));
            proof {
                assert(s@.take(count + 1).drop_last() =~= s@.take(count));
                assert(s@.take(count + 1).last() == c);
            }
            let ok = match mode {
                ScanMode::Start => {
                    if c == '/' || c == ']' {
                        false
                    } else if c == '[' {
                        mode = ScanMode::Index;
                        num = 0;
                        digits = 0;
                        true
                    } else {
                        mode = ScanMode::Name;
                        name = String::new();
                        push_char(&mut name, c);
                        assert(name@ =~= seq![c]);
                        true
                    }
                },
                ScanMode::Name => {
                    if c == '/' || c == '[' {
                        let finished = Segment::Name(name);
                        let ghost pre = segs@;
                        segs.push(finished);
                        assert(segs@.map_values(|x: Segment| x@) =~= pre.map_values(
                            |x: Segment| x@,
                        ).push(SegmentView::Name(before.name)));
                        name = String::new();
                        if c == '/' {
                            mode = ScanMode::Start;
                        } else {
                            mode = ScanMode::Index;
                            num = 0;
                            digits = 0;
                        }
                        true
                    } else if c == ']' {
                        false
                    } else {
                        push_char(&mut name, c);
                        true
                    }
                },
                ScanMode::Index => {
                    let code = c as u32;
                    if 48 <= code && code <= 57 {
                        let d = (code - 48) as u64;
                        if digits >= 1 && num == 0 {
                            false
                        } else if num > (u64::MAX - d) / 10 {
                            assert(num * 10 + d > u64::MAX) by (nonlinear_arith)
                                requires
                                    num > (u64::MAX - d) / 10,
                                    d <= 9,
                            ;
                            false
                        } else {
                            assert(num * 10 + d <= u64::MAX) by (nonlinear_arith)
                                requires
                                    num <= (u64::MAX - d) / 10,
                                    d <= 9,
                            ;
                            assert(digits <= 19) by {
                                // A number with twenty digits and no leading
                                // zero is past `u64::MAX`.
                                lemma_digits_bound(num as nat, digits as nat);
                            }
                            proof {
                                if digits >= 1 {
                                    assert(num * 10 + d >= pow10(digits as nat)) by (nonlinear_arith)
                                        requires
                                            num >= pow10((digits - 1) as nat),
                                            pow10(digits as nat) == 10 * pow10((digits - 1) as nat),
                                    ;
                                }
                            }
                            num = num * 10 + d;
                            digits = digits + 1;
                            true
                        }
                    } else if c == ']' && digits >= 1 {
                        let ghost pre = segs@;
                        segs.push(Segment::Index(num));
                        assert(segs@.map_values(|x: Segment| x@) =~= pre.map_values(
                            |x: Segment| x@,
                        ).push(SegmentView::Index(num)));
                        mode = ScanMode::Closed;
                        true
                    } else {
                        false
                    }
                },
                ScanMode::Closed => {
                    if c == '/' {
                        mode = ScanMode::Start;
                        true
                    } else if c == '[' {
                        mode = ScanMode::Index;
                        num = 0;
                        digits = 0;
                        true
                    } else {
                        false
                    }
                },
            };
            if !ok {
                proof {
                    lemma_scan_failed_stays(s@.take(count + 1), s@);
                }
                return Err(SdbError::InvalidPath(s.to_string()));
            }
            proof {
                count = count + 1;
            }
        }
        proof {
            assert(s@.take(s@.len() as int) =~= s@);
        }
        if s.is_empty() {
            return Ok(SPath { segments: Vec::new() });
        }
        match mode {
            ScanMode::Name => {
                let ghost pre = segs@;
                segs.push(Segment::Name(name));
                assert(segs@.map_values(|x: Segment| x@) =~= pre.map_values(|x: Segment| x@).push(
                    SegmentView::Name(name@),
                ));
                Ok(SPath { segments: segs })
            },
            ScanMode::Closed => Ok(SPath { segments: segs }),
            _ => Err(SdbError::InvalidPath(s.to_string())),
        }
    }
}

/// While no digit is a leading zero and the value fits in a `u64`, there are
/// at most twenty digits.
proof fn lemma_digits_bound(num: nat, digits: nat)
    requires
        num * 10 <= u64::MAX,
        digits >= 1 ==> num >= pow10((digits - 1) as nat) || (digits == 1 && num == 0),
    ensures
        digits <= 19,
{
    if digits > 19 {
        lemma_pow10_mono(19, (digits - 1) as nat);
        reveal_with_fuel(pow10, 20);
        assert(pow10(19) == 10_000_000_000_000_000_000);
    }
}

/// `10` to the power `n`.
pub open spec fn pow10(n: nat) -> nat
    decreases n,
{
    if n == 0 {
        1
    } else {
        10 * pow10((n - 1) as nat)
    }
}

proof fn lemma_pow10_mono(a: nat, b: nat)
    requires
        a <= b,
    ensures
        pow10(a) <= pow10(b),
    decreases b,
{
    if a < b {
        lemma_pow10_mono(a, (b - 1) as nat);
    }
}

/// Once a scan has failed, more text never revives it.
proof fn lemma_scan_failed_stays(a: Seq<char>, s: Seq<char>)
    requires
        a.len() <= s.len(),
        a == s.take(a.len() as int),
        scan_from(scan_init(), a).failed,
    ensures
        scan_from(scan_init(), s).failed,
    decreases s.len() - a.len(),
{
    if a.len() < s.len() {
        let b = s.take(a.len() + 1 as int);
        assert(b.drop_last() =~= a);
        lemma_scan_failed_stays(b, s);
    } else {
        assert(a =~= s);
    }
}

/// Scanning `a + b` is scanning `a`, then `b`.
proof fn lemma_scan_concat(st: PathScan, a: Seq<char>, b: Seq<char>)
    ensures
        scan_from(st, a + b) == scan_from(scan_from(st, a), b),
    decreases b.len(),
{
    if b.len() == 0 {
        assert(a + b =~= a);
    } else {
        assert((a + b).drop_last() =~= a + b.drop_last());
        lemma_scan_concat(st, a, b.drop_last());
    }
}

/// Scanning one character is one step.
proof fn lemma_scan_one(st: PathScan, c: char)
    ensures
        scan_from(st, seq![c]) == scan_step(st, c),
{
    let s = seq![c];
    assert(s.drop_last() =~= Seq::<char>::empty());
    assert(s.last() == c);
    assert(scan_from(st, s.drop_last()) == st);
    assert(scan_from(st, s) == scan_step(scan_from(st, s.drop_last()), s.last()));
}

/// From the start of a token, a writable name is read whole.
proof fn lemma_scan_name(st: PathScan, n: Seq<char>)
    requires
        !st.failed,
        st.mode == ScanMode::Start,
        name_ok(n),
    ensures
        ({
            let r = scan_from(st, n);
            !r.failed && r.mode == ScanMode::Name && r.segs == st.segs && r.name == n
        }),
    decreases n.len(),
{
    if n.len() == 1 {
        assert(n.drop_last() =~= Seq::<char>::empty());
        assert(!is_special(n[0]));
        assert(seq![n.last()] =~= n);
    } else {
        let m = n.drop_last();
        assert forall|i: int| 0 <= i < m.len() implies !is_special(#[trigger] m[i]) by {
            assert(m[i] == n[i]);
        }
        lemma_scan_name(st, m);
        assert(!is_special(n[n.len() - 1]));
        assert(m.push(n.last()) =~= n);
    }
}

/// After a `[`, the decimal digits of a `u64` are read as that number.
proof fn lemma_scan_digits(st: PathScan, i: nat)
    requires
        !st.failed,
        st.mode == ScanMode::Index,
        st.num == 0,
        st.digits == 0,
        i <= u64::MAX,
    ensures
        ({
            let r = scan_from(st, dec_digits(i));
            &&& !r.failed
            &&& r.mode == ScanMode::Index
            &&& r.segs == st.segs
            &&& r.num == i
            &&& r.digits >= 1
        }),
    decreases i,
{
    let c = digit_char(i % 10);
    assert(is_digit(c) && digit_value(c) == i % 10) by {
        assert(((i % 10 + 48) as u8) as u32 == i % 10 + 48);
    }
    if i < 10 {
        assert(dec_digits(i) =~= seq![c]);
        assert(seq![c].drop_last() =~= Seq::<char>::empty());
        assert(scan_from(st, seq![c]) == scan_step(scan_from(st, Seq::<char>::empty()), c));
        assert(i % 10 == i);
    } else {
        lemma_scan_digits(st, i / 10);
        let d = dec_digits(i);
        assert(d.drop_last() =~= dec_digits(i / 10));
        assert(d.last() == c);
        assert((i / 10) * 10 + i % 10 == i);
        assert(i / 10 >= 1);
        assert(scan_from(st, d) == scan_step(scan_from(st, dec_digits(i / 10)), c));
    }
}

/// Where a scan stands after the text of a non-empty writable path.
pub open spec fn scan_at(st: PathScan, p: Seq<SegmentView>) -> bool {
    &&& !st.failed
    &&& match p.last() {
        SegmentView::Name(n) => st.mode == ScanMode::Name && st.segs == p.drop_last() && st.name
            == n,
        SegmentView::Index(_) => st.mode == ScanMode::Closed && st.segs == p,
    }
}

proof fn lemma_scan_path(p: Seq<SegmentView>)
    requires
        p.len() > 0,
        path_ok(p),
    ensures
        scan_at(scan_from(scan_init(), path_text(p)), p),
    decreases p.len(),
{
    let q = p.drop_last();
    assert(path_ok(q)) by {
        assert forall|i: int| 0 <= i < q.len() implies (#[trigger] q[i] matches SegmentView::Name(
            n,
        ) ==> name_ok(n)) by {
            assert(q[i] == p[i]);
        }
    }
    let last = p.last();
    assert(last == p[p.len() - 1]);
    assert(path_text(p) == path_text(q) + segment_text(last, p.len() == 1));
    lemma_scan_concat(scan_init(), path_text(q), segment_text(last, p.len() == 1));
    let st = scan_from(scan_init(), path_text(q));
    if p.len() == 1 {
        assert(path_text(q) =~= Seq::<char>::empty());
        assert(st == scan_init());
        match last {
            SegmentView::Name(n) => {
                lemma_scan_name(st, n);
                assert(q =~= Seq::<SegmentView>::empty());
                assert(scan_at(scan_from(scan_init(), path_text(p)), p));
            },
            SegmentView::Index(i) => {
                let st1 = scan_step(st, '[');
                lemma_scan_one(st, '[');
                lemma_scan_concat(st, seq!['['], dec_digits(i as nat) + seq![']']);
                assert(seq!['['].drop_last() =~= Seq::<char>::empty());
                assert(scan_from(st, seq!['[']) == st1);
                lemma_scan_digits(st1, i as nat);
                lemma_scan_concat(st1, dec_digits(i as nat), seq![']']);
                lemma_scan_one(scan_from(st1, dec_digits(i as nat)), ']');
                assert(seq!['['] + (dec_digits(i as nat) + seq![']']) =~= segment_text(last, true));
                let r = scan_from(st1, dec_digits(i as nat));
                assert(r.num as u64 == i);
                assert(scan_from(scan_init(), path_text(p)) == scan_step(r, ']'));
                assert(scan_step(r, ']').segs =~= p);
                assert(scan_at(scan_from(scan_init(), path_text(p)), p));
            },
        }
    } else {
        lemma_scan_path(q);
        // The scan stands after `q`, in a name or after a `]`.
        match last {
            SegmentView::Name(n) => {
                let st1 = scan_step(st, '/');
                lemma_scan_one(st, '/');
                lemma_scan_concat(st, seq!['/'], n);
                assert(seq!['/'].drop_last() =~= Seq::<char>::empty());
                assert(scan_from(st, seq!['/']) == st1);
                assert(st1.segs == q && st1.mode == ScanMode::Start && !st1.failed) by {
                    match q.last() {
                        SegmentView::Name(m) => {
                            assert(q.drop_last().push(SegmentView::Name(m)) =~= q);
                        },
                        SegmentView::Index(_) => {},
                    }
                }
                lemma_scan_name(st1, n);
                assert(scan_at(scan_from(scan_init(), path_text(p)), p));
            },
            SegmentView::Index(i) => {
                let st1 = scan_step(st, '[');
                lemma_scan_one(st, '[');
                lemma_scan_concat(st, seq!['['], dec_digits(i as nat) + seq![']']);
                assert(seq!['['].drop_last() =~= Seq::<char>::empty());
                assert(scan_from(st, seq!['[']) == st1);
                assert(st1.segs == q && st1.mode == ScanMode::Index && !st1.failed && st1.num == 0
                    && st1.digits == 0) by {
                    match q.last() {
                        SegmentView::Name(m) => {
                            assert(q.drop_last().push(SegmentView::Name(m)) =~= q);
                        },
                        SegmentView::Index(_) => {},
                    }
                }
                lemma_scan_digits(st1, i as nat);
                lemma_scan_concat(st1, dec_digits(i as nat), seq![']']);
                lemma_scan_one(scan_from(st1, dec_digits(i as nat)), ']');
                assert(seq!['['] + (dec_digits(i as nat) + seq![']']) =~= segment_text(last, false));
                assert(seq![']'].drop_last() =~= Seq::<char>::empty());
                assert(q.push(last) =~= p);
                assert(scan_at(scan_from(scan_init(), path_text(p)), p));
            },
        }
    }
}

/// Reading back the text of a path whose names can be written gives the path.
pub proof fn lemma_path_roundtrip(p: Seq<SegmentView>)
    requires
        path_ok(p),
    ensures
        path_parse(path_text(p)) == Some(p),
{
    if p.len() > 0 {
        lemma_scan_path(p);
        assert(path_text(p).len() > 0) by {
            lemma_text_nonempty(p);
        }
        match p.last() {
            SegmentView::Name(n) => {
                assert(p.drop_last().push(SegmentView::Name(n)) =~= p);
            },
            SegmentView::Index(_) => {},
        }
    }
}

proof fn lemma_text_nonempty(p: Seq<SegmentView>)
    requires
        p.len() > 0,
        path_ok(p),
    ensures
        path_text(p).len() > 0,
{
    assert(p.last() == p[p.len() - 1]);
    match p.last() {
        SegmentView::Name(n) => {
            assert(name_ok(n));
        },
        SegmentView::Index(_) => {},
    }
}
} // verus!
