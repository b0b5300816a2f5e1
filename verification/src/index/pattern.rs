//! Index path patterns: which entities an index covers.
//!
//! A pattern is a slash-separated path in which a `*` segment is a wildcard
//! matching any single child (`users/*` selects every direct child of
//! `users`). Non-wildcard segments are ordinary [`Segment`]s, so `a/t[0]` is
//! allowed too; the empty pattern selects the root.

use crate::error::{SdbError, SdbResult};
use crate::path::{path_parse, SPath, Segment, SegmentView};
use crate::text::{push_char, push_str};
use vstd::prelude::*;

verus! {

/// One step of a pattern.
#[derive(Clone, Debug, PartialEq, Eq)]
pub enum PatternSeg {
    /// A fixed segment that must match exactly.
    Lit(Segment),
    /// `*`: matches any single child.
    Star,
}

/// The mathematical form of a [`PatternSeg`].
pub enum PatternSegView {
    Lit(SegmentView),
    Star,
}

impl View for PatternSeg {
    type V = PatternSegView;

    open spec fn view(&self) -> PatternSegView {
        match self {
            PatternSeg::Lit(s) => PatternSegView::Lit(s@),
            PatternSeg::Star => PatternSegView::Star,
        }
    }
}

/// A parsed index pattern.
#[derive(Clone, Debug, PartialEq, Eq)]
pub struct Pattern {
    segs: Vec<PatternSeg>,
}

impl View for Pattern {
    type V = Seq<PatternSegView>;

    closed spec fn view(&self) -> Seq<PatternSegView> {
        self.segs@.map_values(|s: PatternSeg| s@)
    }
}

/// The `/`-separated tokens of `s` (one empty token for the empty text).
pub open spec fn split_slash(s: Seq<char>) -> Seq<Seq<char>>
    decreases s.len(),
{
    if s.len() == 0 {
        seq![Seq::empty()]
    } else {
        let t = split_slash(s.drop_last());
        if s.last() == '/' {
            t.push(Seq::empty())
        } else {
            t.update(t.len() - 1, t.last().push(s.last()))
        }
    }
}

proof fn lemma_split_nonempty(s: Seq<char>)
    ensures
        split_slash(s).len() >= 1,
    decreases s.len(),
{
    if s.len() > 0 {
        lemma_split_nonempty(s.drop_last());
    }
}

/// The pattern steps one token stands for: `*` is the wildcard, anything else
/// is read as a path; an empty or malformed token stands for nothing.
pub open spec fn token_steps(tok: Seq<char>) -> Option<Seq<PatternSegView>> {
    if tok.len() == 0 {
        None
    } else if tok == seq!['*'] {
        Some(seq![PatternSegView::Star])
    } else {
        match path_parse(tok) {
            Some(p) => Some(p.map_values(|s: SegmentView| PatternSegView::Lit(s))),
            None => None,
        }
    }
}

/// The steps of a run of tokens, or `None` if any token is empty or malformed.
pub open spec fn tokens_steps(ts: Seq<Seq<char>>) -> Option<Seq<PatternSegView>>
    decreases ts.len(),
{
    if ts.len() == 0 {
        Some(Seq::empty())
    } else {
        match (tokens_steps(ts.drop_last()), token_steps(ts.last())) {
            (Some(a), Some(b)) => Some(a + b),
            _ => None,
        }
    }
}

/// The pattern `s` spells: empty for the empty text, else the steps of its
/// tokens; `None` when a token is empty or malformed.
pub open spec fn pattern_parse(s: Seq<char>) -> Option<Seq<PatternSegView>> {
    if s.len() == 0 {
        Some(Seq::empty())
    } else {
        tokens_steps(split_slash(s))
    }
}

impl Pattern {
    /// The steps of the pattern, root first.
    pub fn segs(&self) -> (s: &Vec<PatternSeg>)
        ensures
            s@.map_values(|x: PatternSeg| x@) == self@,
    {
        &self.segs
    }

    /// Parses a pattern such as `users/*` or `org/teams/*`, failing with
    /// [`InvalidPath`](SdbError::InvalidPath) on an empty or malformed segment.
    pub fn parse(pattern: &str) -> (r: SdbResult<Pattern>)
        ensures
            match pattern_parse(pattern@) {
                Some(p) => r matches Ok(x) && x@ == p,
                None => r matches Err(e) && e is InvalidPath,
            },
    {
        let mut segs: Vec<PatternSeg> = Vec::new();
        if pattern.is_empty() {
            let p = Pattern { segs };
            assert(p@ =~= Seq::<PatternSegView>::empty());
            return Ok(p);
        }
        let mut token = String::new();
        let mut token_empty = true;
        let mut token_star = false;
        let ghost mut count: int = 0;
        for c in it: pattern.chars()
            invariant
                it.seq() == pattern@,
                count == it.index(),
                ({
                    let ts = split_slash(pattern@.take(count));
                    &&& ts.len() >= 1
                    &&& token@ == ts.last()
                    &&& token_empty == (token@.len() == 0)
                    &&& token_star == (token@ == seq!['*'])
                    &&& tokens_steps(ts.drop_last()) == Some(segs@.map_values(|x: PatternSeg| x@))
                }),
        {
            let ghost ts = split_slash(pattern@.take(count));
            proof {
                assert(pattern@.take(count + 1).drop_last() =~= pattern@.take(count));
                assert(pattern@.take(count + 1).last() == c);
                lemma_split_nonempty(pattern@.take(count + 1));
            }
            if c == '/' {
                let ghost pre = segs@.map_values(|x: PatternSeg| x@);
                if !take_token(&mut segs, token, token_empty, token_star) {
                    proof {
                        let ts1 = split_slash(pattern@.take(count + 1));
                        assert(ts1.drop_last() =~= ts);
                        assert(ts.drop_last().push(ts.last()) =~= ts);
                        lemma_tokens_none_stays(pattern@.take(count + 1), pattern@);
                    }
                    return Err(empty_segment(pattern));
                }
                proof {
                    let ts1 = split_slash(pattern@.take(count + 1));
                    assert(ts1.drop_last() =~= ts);
                    assert(ts.drop_last().push(ts.last()) =~= ts);
                    assert(ts1.last() =~= Seq::<char>::empty());
                    assert(tokens_steps(ts) == Some(segs@.map_values(|x: PatternSeg| x@)));
                }
                token = String::new();
                token_empty = true;
                token_star = false;
                proof {
                    let ts1 = split_slash(pattern@.take(count + 1));
                    assert(token@ == ts1.last());
                    assert(tokens_steps(ts1.drop_last()) == Some(segs@.map_values(|x: PatternSeg| x@)));
                }
            } else {
                let was_empty = token_empty;
                token_star = was_empty && c == '*';
                token_empty = false;
                push_char(&mut token, c);
                proof {
                    let ts1 = split_slash(pattern@.take(count + 1));
                    assert(ts1.drop_last() =~= ts.drop_last());
                    assert(ts1.last() =~= token@);
                    if token_star {
                        assert(token@ =~= seq!['*']);
                    } else if token@ =~= seq!['*'] {
                        assert(token@.len() == 1);
                        assert(ts.last().len() == 0);
                        assert(token@[0] == c);
                        assert(false);
                    }
                    assert(token_empty == (token@.len() == 0));
                    assert(token_star == (token@ == seq!['*']));
                    assert(tokens_steps(ts1.drop_last()) == Some(segs@.map_values(|x: PatternSeg| x@)));
                }
            }
            proof {
                count = count + 1;
            }
        }
        proof {
            assert(pattern@.take(pattern@.len() as int) =~= pattern@);
        }
        let ghost ts = split_slash(pattern@);
        proof {
            lemma_split_nonempty(pattern@);
        }
        if !take_token(&mut segs, token, token_empty, token_star) {
            proof {
                assert(ts.drop_last().push(ts.last()) =~= ts);
            }
            return Err(empty_segment(pattern));
        }
        proof {
            assert(ts.drop_last().push(ts.last()) =~= ts);
        }
        Ok(Pattern { segs })
    }
}

/// Appends the steps of one token; `false` when it is empty or malformed.
fn take_token(segs: &mut Vec<PatternSeg>, token: String, empty: bool, star: bool) -> (ok: bool)
    requires
        empty == (token@.len() == 0),
        star == (token@ == seq!['*']),
    ensures
        match token_steps(token@) {
            Some(b) => ok && final(segs)@.map_values(|x: PatternSeg| x@) == old(segs)@.map_values(
                |x: PatternSeg| x@,
            ) + b,
            None => !ok,
        },
{
    if empty {
        return false;
    }
    if star {
        let ghost pre = segs@;
        segs.push(PatternSeg::Star);
        assert(segs@.map_values(|x: PatternSeg| x@) =~= pre.map_values(|x: PatternSeg| x@) + seq![
            PatternSegView::Star,
        ]);
        return true;
    }
    match SPath::parse(token.as_str()) {
        Ok(path) => {
            let parsed = path.into_segments();
            let ghost pre = segs@;
            let ghost lits = parsed@.map_values(|x: Segment| x@).map_values(
                |s: SegmentView| PatternSegView::Lit(s),
            );
            let ghost orig = parsed@;
            let ghost mut i: int = 0;
            let mut rest = parsed;
            while rest.len() > 0
                invariant
                    i + rest@.len() == orig.len(),
                    lits.len() == orig.len(),
                    rest@ == orig.skip(i as int),
                    lits == orig.map_values(|x: Segment| x@).map_values(
                        |s: SegmentView| PatternSegView::Lit(s),
                    ),
                    0 <= i,
                    segs@.map_values(|x: PatternSeg| x@) == pre.map_values(|x: PatternSeg| x@)
                        + lits.take(i),
                decreases rest@.len(),
            {
                let seg = rest.remove(0);
                proof {
                    assert(seg == orig[i]);
                    assert(PatternSegView::Lit(seg@) == lits[i]);
                }
                let ghost before = segs@;
                segs.push(PatternSeg::Lit(seg));
                proof {
                    assert(segs@.map_values(|x: PatternSeg| x@) =~= before.map_values(
                        |x: PatternSeg| x@,
                    ).push(PatternSegView::Lit(seg@)));
                    assert(lits.take(i + 1) =~= lits.take(i).push(lits[i]));
                    i = i + 1;
                    assert(rest@ =~= orig.skip(i));
                }
            }
            assert(lits.take(i) =~= lits);
            true
        },
        Err(_) => false,
    }
}

/// The error for an empty or malformed segment in `pattern`: an
/// [`InvalidPath`](SdbError::InvalidPath) whose message quotes the pattern.
fn empty_segment(pattern: &str) -> (e: SdbError)
    ensures
        e matches SdbError::InvalidPath(m) && m@ == "empty or malformed segment in index pattern '"@
            + pattern@ + seq!['\''],
{
    let mut msg = String::new();
    push_str(&mut msg, "empty or malformed segment in index pattern '");
    push_str(&mut msg, pattern);
    push_char(&mut msg, '\'');
    SdbError::InvalidPath(msg)
}

/// Once a prefix has an empty or malformed token before its last, the whole
/// text has too.
proof fn lemma_tokens_none_stays(a: Seq<char>, s: Seq<char>)
    requires
        a.len() <= s.len(),
        a == s.take(a.len() as int),
        tokens_steps(split_slash(a).drop_last()) is None,
    ensures
        tokens_steps(split_slash(s)) is None,
    decreases s.len() - a.len(),
{
    if a.len() < s.len() {
        let b = s.take(a.len() + 1 as int);
        assert(b.drop_last() =~= a);
        let ta = split_slash(a);
        let tb = split_slash(b);
        lemma_split_nonempty(a);
        if b.last() == '/' {
            assert(tb.drop_last() =~= ta);
            assert(ta.drop_last().push(ta.last()) =~= ta);
        } else {
            assert(tb.drop_last() =~= ta.drop_last());
        }
        lemma_tokens_none_stays(b, s);
    } else {
        assert(a =~= s);
        let t = split_slash(s);
        lemma_split_nonempty(s);
        assert(t.drop_last().push(t.last()) =~= t);
    }
}

/// What the walk for affected entities does at a node it reached through
/// the pattern's first `si` steps, `depth` segments down the mutated path.
#[derive(Debug)]
pub enum WalkStep {
    /// Every pattern step is consumed: the node is a matched entity.
    Emit,
    /// Go on into the node's child through this segment, if it has one.
    Child(Segment),
    /// Go on into every child of the node.
    Children,
    /// The pattern leaves the mutated path here: nothing below is affected.
    Prune,
}

/// The mathematical form of a [`WalkStep`].
pub enum WalkStepView {
    Emit,
    Child(SegmentView),
    Children,
    Prune,
}

impl View for WalkStep {
    type V = WalkStepView;

    open spec fn view(&self) -> WalkStepView {
        match self {
            WalkStep::Emit => WalkStepView::Emit,
            WalkStep::Child(s) => WalkStepView::Child(s@),
            WalkStep::Children => WalkStepView::Children,
            WalkStep::Prune => WalkStepView::Prune,
        }
    }
}

/// The walk's step after `si` pattern steps at `depth` segments down `scope`.
/// Within `scope`, a fixed step must be the segment the mutation took (else
/// the entity is on another branch) and a wildcard binds to that segment;
/// past `scope`, the mutation sits above, so a wildcard takes every child.
pub open spec fn walk_step_of(
    p: Seq<PatternSegView>,
    si: int,
    scope: Seq<SegmentView>,
    depth: int,
) -> WalkStepView {
    if si >= p.len() {
        WalkStepView::Emit
    } else {
        match p[si] {
            PatternSegView::Lit(seg) => if depth < scope.len() && scope[depth] != seg {
                WalkStepView::Prune
            } else {
                WalkStepView::Child(seg)
            },
            PatternSegView::Star => if depth < scope.len() {
                WalkStepView::Child(scope[depth])
            } else {
                WalkStepView::Children
            },
        }
    }
}

impl Pattern {
    /// The walk's step at a node reached through the first `si` pattern steps,
    /// `depth` segments down the mutated path `scope`.
    pub fn walk_step(&self, si: usize, scope: &SPath, depth: usize) -> (w: WalkStep)
        requires
            si <= self@.len(),
        ensures
            w@ == walk_step_of(self@, si as int, scope@, depth as int),
    {
        if si == self.segs.len() {
            return WalkStep::Emit;
        }
        assert(self@[si as int] == self.segs@[si as int]@);
        let segments = scope.segments();
        match &self.segs[si] {
            PatternSeg::Lit(seg) => {
                if depth < segments.len() {
                    assert(scope@[depth as int] == segments@[depth as int]@);
                    if !segments[depth].same_as(seg) {
                        return WalkStep::Prune;
                    }
                }
                WalkStep::Child(seg.duplicate())
            },
            PatternSeg::Star => {
                if depth < segments.len() {
                    assert(scope@[depth as int] == segments@[depth as int]@);
                    WalkStep::Child(segments[depth].duplicate())
                } else {
                    WalkStep::Children
                }
            },
        }
    }
}

/// Within the mutated path the walk never fans out, and any child it goes
/// into is the one the mutation went through: an entity on another branch is
/// never visited.
pub proof fn lemma_walk_stays_on_path(p: Seq<PatternSegView>, si: int, scope: Seq<SegmentView>, depth: int)
    requires
        0 <= depth < scope.len(),
    ensures
        !(walk_step_of(p, si, scope, depth) is Children),
        walk_step_of(p, si, scope, depth) matches WalkStepView::Child(seg) ==> seg == scope[depth],
{
}

/// An entity path `c` is one the pattern names: one segment per step, equal
/// to each fixed step.
pub open spec fn path_matches(p: Seq<PatternSegView>, c: Seq<SegmentView>) -> bool {
    &&& c.len() == p.len()
    &&& forall|i: int| 0 <= i < p.len() ==> (#[trigger] p[i] matches PatternSegView::Lit(seg) ==> seg == c[i])
}

/// `c` and the mutated path `scope` agree wherever both have a segment: the
/// entity lies under the mutation, or the mutation under the entity.
pub open spec fn on_mutated_path(c: Seq<SegmentView>, scope: Seq<SegmentView>) -> bool {
    forall|i: int| 0 <= i < c.len() && i < scope.len() ==> #[trigger] c[i] == scope[i]
}

/// Every entity a mutation affects is reached: along the path of any entity
/// the pattern names that lies on the mutated path (above or below it), the
/// walk never prunes, each step goes on into that entity's segment (by name or
/// over all children), and the walk ends by emitting it.
pub proof fn lemma_walk_reaches_affected(
    p: Seq<PatternSegView>,
    scope: Seq<SegmentView>,
    c: Seq<SegmentView>,
)
    requires
        path_matches(p, c),
        on_mutated_path(c, scope),
    ensures
        forall|si: int|
            0 <= si < p.len() ==> (#[trigger] walk_step_of(p, si, scope, si) == WalkStepView::Child(c[si])
                || walk_step_of(p, si, scope, si) is Children),
        walk_step_of(p, p.len() as int, scope, p.len() as int) is Emit,
{
    assert forall|si: int| 0 <= si < p.len() implies (#[trigger] walk_step_of(p, si, scope, si)
        == WalkStepView::Child(c[si]) || walk_step_of(p, si, scope, si) is Children) by {
        match p[si] {
            PatternSegView::Lit(seg) => {
                assert(seg == c[si]);
                if si < scope.len() {
                    assert(c[si] == scope[si]);
                }
            },
            PatternSegView::Star => {
                if si < scope.len() {
                    assert(c[si] == scope[si]);
                }
            },
        }
    }
}

/// A walk prunes only where no named entity can lie on the mutated path: if
/// the step at `si` prunes, no entity path the pattern names agrees with the
/// mutated path.
pub proof fn lemma_prune_only_off_path(
    p: Seq<PatternSegView>,
    scope: Seq<SegmentView>,
    c: Seq<SegmentView>,
    si: int,
)
    requires
        0 <= si,
        walk_step_of(p, si, scope, si) is Prune,
        path_matches(p, c),
    ensures
        !on_mutated_path(c, scope),
{
    if on_mutated_path(c, scope) {
        lemma_walk_reaches_affected(p, scope, c);
    }
}

} // verus!
