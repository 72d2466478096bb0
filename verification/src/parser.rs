//! The command parser: cuts a source text into literal text and commands.
//!
//! A command starts with `(%` and ends with the `%)` that matches it;
//! commands may be nested. A backslash takes the meaning from the character
//! after it, so `\(%` starts nothing. The parser reads the text once from
//! left to right, and every step takes at least one character.

use vstd::prelude::*;
use crate::issue::{views, Issue, IssueView};
use crate::span::Span;
use crate::text::{byte_len, byte_offsets, chars_of, slice_of, string_of};

verus! {

/// The character that takes the meaning from the character after it.
pub const ESCAPE: char = '\\';

/// What a [`Segment`] of a source text is.
#[derive(Debug, Copy, Clone, PartialEq, Eq, Structural)]
pub enum SegmentKind {
    /// Text outside any command.
    Literal,
    /// The text of a command, between its `(%` and the matching `%)`.
    Command,
    /// The text of a command that the source ends in: all that follows a
    /// `(%` that nothing closes.
    OpenCommand,
    /// A `%)` outside any command.
    StrayClose,
}

/// A part of a source text: the characters from position `start` up to
/// position `end`.
#[derive(Debug, Copy, Clone, PartialEq, Eq, Structural)]
pub struct Segment {
    pub kind: SegmentKind,
    pub start: usize,
    pub end: usize,
}

/// Whether an opening delimiter `(%` stands at position `i` of `s`.
pub open spec fn opens_at(s: Seq<char>, i: int) -> bool {
    i + 1 < s.len() && s[i] == '(' && s[i + 1] == '%'
}

/// Whether a closing delimiter `%)` stands at position `i` of `s`.
pub open spec fn closes_at(s: Seq<char>, i: int) -> bool {
    i + 1 < s.len() && s[i] == '%' && s[i + 1] == ')'
}

/// Whether the character at position `i` of `s` escapes the one after it.
pub open spec fn escapes_at(s: Seq<char>, i: int) -> bool {
    i + 1 < s.len() && s[i] == ESCAPE
}

/// The segments of `s` from position `i` on, where the reader is `lvl`
/// commands deep and the segment being read started at position `start`.
///
/// Outside any command, a `(%` ends the literal text before it and starts a
/// command, and a `%)` ends the literal text before it and is a segment of
/// its own. Inside a command, a `(%` goes one level deeper and a `%)` one
/// level up; the `%)` that leaves the outermost level ends the command. At
/// the end of `s`, what is being read ends: literal text, or a command that
/// nothing closed.
pub open spec fn segments_from(s: Seq<char>, i: int, lvl: nat, start: int) -> Seq<Segment>
    decreases s.len() - i,
{
    if i >= s.len() {
        seq![
            Segment {
                kind: if lvl == 0 {
                    SegmentKind::Literal
                } else {
                    SegmentKind::OpenCommand
                },
                start: start as usize,
                end: s.len() as usize,
            },
        ]
    } else if escapes_at(s, i) {
        segments_from(s, i + 2, lvl, start)
    } else if opens_at(s, i) {
        if lvl == 0 {
            seq![Segment { kind: SegmentKind::Literal, start: start as usize, end: i as usize }]
                + segments_from(s, i + 2, 1, i + 2)
        } else {
            segments_from(s, i + 1, lvl + 1, start)
        }
    } else if closes_at(s, i) {
        if lvl == 0 {
            seq![
                Segment { kind: SegmentKind::Literal, start: start as usize, end: i as usize },
                Segment { kind: SegmentKind::StrayClose, start: i as usize, end: (i + 2) as usize },
            ] + segments_from(s, i + 2, 0, i + 2)
        } else if lvl == 1 {
            seq![Segment { kind: SegmentKind::Command, start: start as usize, end: i as usize }]
                + segments_from(s, i + 2, 0, i + 2)
        } else {
            segments_from(s, i + 1, (lvl - 1) as nat, start)
        }
    } else {
        segments_from(s, i + 1, lvl, start)
    }
}

/// The segments of the source text `s`, in order.
pub open spec fn segments(s: Seq<char>) -> Seq<Segment> {
    segments_from(s, 0, 0, 0)
}

/// Whether `seg` is a segment that a text of `len` characters can have:
/// it lies in the text, and a command has its `(%` before it and, where it
/// is closed, its `%)` behind it.
pub open spec fn segment_fits(seg: Segment, len: int) -> bool {
    &&& seg.start <= seg.end <= len
    &&& seg.kind == SegmentKind::Command ==> seg.start >= 2 && seg.end + 2 <= len
    &&& seg.kind == SegmentKind::OpenCommand ==> seg.start >= 2 && seg.end == len
    &&& seg.kind == SegmentKind::StrayClose ==> seg.end == seg.start + 2
}

/// Every segment fits the text, and the segments follow each other from
/// left to right.
pub proof fn lemma_segments_fit(s: Seq<char>, i: int, lvl: nat, start: int)
    requires
        0 <= start <= i <= s.len() + 1,
        start <= s.len(),
        s.len() <= usize::MAX,
        lvl > 0 ==> start >= 2,
    ensures
        segments_from(s, i, lvl, start).len() >= 1,
        forall|k: int|
            0 <= k < segments_from(s, i, lvl, start).len() ==> segment_fits(
                #[trigger] segments_from(s, i, lvl, start)[k],
                s.len() as int,
            ) && start <= segments_from(s, i, lvl, start)[k].start,
        forall|j: int, k: int|
            0 <= j < k < segments_from(s, i, lvl, start).len() ==> (#[trigger] segments_from(
                s,
                i,
                lvl,
                start,
            )[j]).end <= (#[trigger] segments_from(s, i, lvl, start)[k]).start,
    decreases s.len() - i,
{
    let all = segments_from(s, i, lvl, start);
    if i >= s.len() {
    } else if escapes_at(s, i) {
        lemma_segments_fit(s, i + 2, lvl, start);
    } else if opens_at(s, i) {
        if lvl == 0 {
            lemma_segments_fit(s, i + 2, 1, i + 2);
            let rest = segments_from(s, i + 2, 1, i + 2);
            assert forall|k: int| 0 <= k < all.len() implies segment_fits(
                #[trigger] all[k],
                s.len() as int,
            ) && start <= all[k].start by {
                if k > 0 {
                    assert(all[k] == rest[k - 1]);
                }
            }
            assert forall|j: int, k: int| 0 <= j < k < all.len() implies (#[trigger] all[j]).end <= (
            #[trigger] all[k]).start by {
                assert(all[k] == rest[k - 1]);
                if j > 0 {
                    assert(all[j] == rest[j - 1]);
                }
            }
        } else {
            lemma_segments_fit(s, i + 1, lvl + 1, start);
        }
    } else if closes_at(s, i) {
        if lvl == 0 {
            lemma_segments_fit(s, i + 2, 0, i + 2);
            let rest = segments_from(s, i + 2, 0, i + 2);
            assert forall|k: int| 0 <= k < all.len() implies segment_fits(
                #[trigger] all[k],
                s.len() as int,
            ) && start <= all[k].start by {
                if k > 1 {
                    assert(all[k] == rest[k - 2]);
                }
            }
            assert forall|j: int, k: int| 0 <= j < k < all.len() implies (#[trigger] all[j]).end <= (
            #[trigger] all[k]).start by {
                if k > 1 {
                    assert(all[k] == rest[k - 2]);
                }
                if j > 1 {
                    assert(all[j] == rest[j - 2]);
                }
            }
        } else if lvl == 1 {
            lemma_segments_fit(s, i + 2, 0, i + 2);
            let rest = segments_from(s, i + 2, 0, i + 2);
            assert forall|k: int| 0 <= k < all.len() implies segment_fits(
                #[trigger] all[k],
                s.len() as int,
            ) && start <= all[k].start by {
                if k > 0 {
                    assert(all[k] == rest[k - 1]);
                }
            }
            assert forall|j: int, k: int| 0 <= j < k < all.len() implies (#[trigger] all[j]).end <= (
            #[trigger] all[k]).start by {
                assert(all[k] == rest[k - 1]);
                if j > 0 {
                    assert(all[j] == rest[j - 1]);
                }
            }
        } else {
            lemma_segments_fit(s, i + 1, (lvl - 1) as nat, start);
        }
    } else {
        lemma_segments_fit(s, i + 1, lvl, start);
    }
}

/// Whether the segment `next` can follow the segment `prev`: literal text
/// is followed by a command, whose `(%` stands between them, or by a `%)`
/// that closes nothing; a command is followed by literal text, behind its
/// `%)`; and a `%)` that closes nothing is followed by literal text.
pub open spec fn follows(prev: Segment, next: Segment) -> bool {
    match prev.kind {
        SegmentKind::Literal => match next.kind {
            SegmentKind::Command => next.start == prev.end + 2,
            SegmentKind::OpenCommand => next.start == prev.end + 2,
            SegmentKind::StrayClose => next.start == prev.end,
            SegmentKind::Literal => false,
        },
        SegmentKind::Command => next.kind == SegmentKind::Literal && next.start == prev.end + 2,
        SegmentKind::StrayClose => next.kind == SegmentKind::Literal && next.start == prev.end,
        SegmentKind::OpenCommand => false,
    }
}

/// The segments that are read from a position on start with the segment
/// being read, follow each other, and reach the end of the text.
proof fn lemma_segments_chain(s: Seq<char>, i: int, lvl: nat, start: int)
    requires
        0 <= start <= i <= s.len(),
        s.len() <= usize::MAX,
    ensures
        segments_from(s, i, lvl, start).len() >= 1,
        segments_from(s, i, lvl, start)[0].start == start,
        lvl == 0 ==> segments_from(s, i, lvl, start)[0].kind == SegmentKind::Literal,
        lvl > 0 ==> segments_from(s, i, lvl, start)[0].kind == SegmentKind::Command
            || segments_from(s, i, lvl, start)[0].kind == SegmentKind::OpenCommand,
        segments_from(s, i, lvl, start).last().end == s.len(),
        forall|k: int|
            0 <= k < segments_from(s, i, lvl, start).len() - 1 ==> follows(
                #[trigger] segments_from(s, i, lvl, start)[k],
                segments_from(s, i, lvl, start)[k + 1],
            ),
    decreases s.len() - i,
{
    let all = segments_from(s, i, lvl, start);
    if i >= s.len() {
    } else if escapes_at(s, i) {
        lemma_segments_chain(s, i + 2, lvl, start);
    } else if opens_at(s, i) {
        if lvl == 0 {
            lemma_segments_chain(s, i + 2, 1, i + 2);
            let rest = segments_from(s, i + 2, 1, i + 2);
            assert(all.last() == rest.last());
            assert forall|k: int| 0 <= k < all.len() - 1 implies follows(
                #[trigger] all[k],
                all[k + 1],
            ) by {
                assert(all[k + 1] == rest[k]);
                if k > 0 {
                    assert(all[k] == rest[k - 1]);
                }
            }
        } else {
            lemma_segments_chain(s, i + 1, lvl + 1, start);
        }
    } else if closes_at(s, i) {
        if lvl == 0 {
            lemma_segments_chain(s, i + 2, 0, i + 2);
            let rest = segments_from(s, i + 2, 0, i + 2);
            assert(all.last() == rest.last());
            assert forall|k: int| 0 <= k < all.len() - 1 implies follows(
                #[trigger] all[k],
                all[k + 1],
            ) by {
                if k > 0 {
                    assert(all[k + 1] == rest[k - 1]);
                }
                if k > 1 {
                    assert(all[k] == rest[k - 2]);
                }
            }
        } else if lvl == 1 {
            lemma_segments_chain(s, i + 2, 0, i + 2);
            let rest = segments_from(s, i + 2, 0, i + 2);
            assert(all.last() == rest.last());
            assert forall|k: int| 0 <= k < all.len() - 1 implies follows(
                #[trigger] all[k],
                all[k + 1],
            ) by {
                assert(all[k + 1] == rest[k]);
                if k > 0 {
                    assert(all[k] == rest[k - 1]);
                }
            }
        } else {
            lemma_segments_chain(s, i + 1, (lvl - 1) as nat, start);
        }
    } else {
        lemma_segments_chain(s, i + 1, lvl, start);
    }
}

/// Nothing of a source text is lost: its segments start with literal text
/// at the start of the text, each segment is followed by the next with at
/// most a delimiter between them, and the last segment ends where the text
/// ends.
pub proof fn law_segments_cover_the_source(s: Seq<char>)
    requires
        s.len() <= usize::MAX,
    ensures
        segments(s).len() >= 1,
        segments(s)[0].kind == SegmentKind::Literal,
        segments(s)[0].start == 0,
        segments(s).last().end == s.len(),
        forall|k: int|
            0 <= k < segments(s).len() - 1 ==> follows(#[trigger] segments(s)[k], segments(s)[k + 1]),
{
    lemma_segments_chain(s, 0, 0, 0);
}

/// Cuts the source text `src` into its segments.
pub fn scan_segments(src: &Vec<char>) -> (r: Vec<Segment>)
    ensures
        r@ == segments(src@),
        r@.len() >= 1,
        forall|k: int| 0 <= k < r@.len() ==> segment_fits(#[trigger] r@[k], src@.len() as int),
        forall|j: int, k: int| 0 <= j < k < r@.len() ==> (#[trigger] r@[j]).end <= (#[trigger] r@[k]).start,
{
    let n = src.len();
    let mut r: Vec<Segment> = Vec::new();
    let mut i: usize = 0;
    let mut lvl: usize = 0;
    let mut start: usize = 0;
    proof {
        lemma_segments_fit(src@, 0, 0, 0);
        assert(r@ + segments_from(src@, 0, 0, 0) =~= segments(src@));
    }
    while i < n
        invariant
            n == src@.len(),
            start <= i <= n + 1,
            start <= n,
            lvl <= i,
            r@ + segments_from(src@, i as int, lvl as nat, start as int) == segments(src@),
        decreases n + 1 - i,
    {
        let ghost rest = segments_from(src@, i as int, lvl as nat, start as int);
        let c = src[i];
        let next = if i + 1 < n {
            Some(src[i + 1])
        } else {
            None
        };
        if c == ESCAPE && next.is_some() {
            i += 2;
        } else if c == '(' && next == Some('%') {
            if lvl == 0 {
                let seg = Segment { kind: SegmentKind::Literal, start, end: i };
                proof {
                    let after = segments_from(src@, i as int + 2, 1, i as int + 2);
                    assert(r@.push(seg) + after =~= r@ + (seq![seg] + after));
                }
                r.push(seg);
                lvl = 1;
                i += 2;
                start = i;
            } else {
                lvl += 1;
                i += 1;
            }
        } else if c == '%' && next == Some(')') {
            if lvl == 0 {
                let seg = Segment { kind: SegmentKind::Literal, start, end: i };
                let stray = Segment { kind: SegmentKind::StrayClose, start: i, end: i + 2 };
                proof {
                    let after = segments_from(src@, i as int + 2, 0, i as int + 2);
                    assert(r@.push(seg).push(stray) + after =~= r@ + (seq![seg, stray] + after));
                }
                r.push(seg);
                r.push(stray);
                i += 2;
                start = i;
            } else if lvl == 1 {
                let seg = Segment { kind: SegmentKind::Command, start, end: i };
                proof {
                    let after = segments_from(src@, i as int + 2, 0, i as int + 2);
                    assert(r@.push(seg) + after =~= r@ + (seq![seg] + after));
                }
                r.push(seg);
                lvl = 0;
                i += 2;
                start = i;
            } else {
                lvl -= 1;
                i += 1;
            }
        } else {
            i += 1;
        }
    }
    let last = Segment {
        kind: if lvl == 0 {
            SegmentKind::Literal
        } else {
            SegmentKind::OpenCommand
        },
        start,
        end: n,
    };
    proof {
        assert(r@.push(last) =~= r@ + seq![last]);
    }
    r.push(last);
    r
}

/// The issue that a `%)` outside any command gives.
pub open spec fn stray_close_issue(src: Seq<char>, seg: Segment) -> IssueView {
    IssueView {
        id: "command:unmatched_closing_delim"@,
        msg: "Unmatched '%)'"@,
        span: Span { start: byte_len(src.take(seg.start as int)) as usize, len: 2 },
    }
}

/// The issue that a command gives that nothing closes: its region is all
/// that follows the `(%`.
pub open spec fn no_end_issue(src: Seq<char>, seg: Segment) -> IssueView {
    IssueView {
        id: "command:no_end"@,
        msg: "Command has no end"@,
        span: Span {
            start: byte_len(src.take(seg.start as int)) as usize,
            len: byte_len(src.subrange(seg.start as int, seg.end as int)) as usize,
        },
    }
}

/// The issues that the segments `segs` of `src` give, in order: one for
/// each `%)` outside any command, and one for a command that nothing
/// closes.
pub open spec fn structural_issues(src: Seq<char>, segs: Seq<Segment>) -> Seq<IssueView>
    decreases segs.len(),
{
    if segs.len() == 0 {
        Seq::empty()
    } else {
        let before = structural_issues(src, segs.drop_last());
        match segs.last().kind {
            SegmentKind::StrayClose => before.push(stray_close_issue(src, segs.last())),
            SegmentKind::OpenCommand => before.push(no_end_issue(src, segs.last())),
            _ => before,
        }
    }
}

/// The region of every structural issue lies in the source text.
pub proof fn lemma_structural_issues_within(src: Seq<char>, segs: Seq<Segment>)
    requires
        byte_len(src) <= usize::MAX,
        forall|k: int| 0 <= k < segs.len() ==> segment_fits(#[trigger] segs[k], src.len() as int),
    ensures
        crate::issue::all_within(structural_issues(src, segs), byte_len(src) as int),
    decreases segs.len(),
{
    if segs.len() > 0 {
        let seg = segs.last();
        assert(segment_fits(seg, src.len() as int));
        lemma_structural_issues_within(src, segs.drop_last());
        crate::text::lemma_byte_len_subrange(src, seg.start as int, seg.end as int);
        crate::text::lemma_byte_len_bounds(src.subrange(seg.start as int, seg.end as int));
    }
}

/// Pushes the issues that the segments `segs` of `src` give onto `issues`.
/// `offsets` holds the byte offset of every character position of `src`.
pub fn push_structural_issues(
    src: &Vec<char>,
    offsets: &Vec<usize>,
    segs: &Vec<Segment>,
    issues: &mut Vec<Issue>,
)
    requires
        offsets@.len() == src@.len() + 1,
        forall|k: int| 0 <= k <= src@.len() ==> #[trigger] offsets@[k] == byte_len(src@.take(k)),
        forall|k: int| 0 <= k < segs@.len() ==> segment_fits(#[trigger] segs@[k], src@.len() as int),
    ensures
        views(final(issues)@) == views(old(issues)@) + structural_issues(src@, segs@),
{
    let mut k: usize = 0;
    proof {
        assert(views(issues@) + structural_issues(src@, segs@.take(0)) =~= views(issues@));
    }
    while k < segs.len()
        invariant
            k <= segs.len(),
            offsets@.len() == src@.len() + 1,
            forall|j: int| 0 <= j <= src@.len() ==> #[trigger] offsets@[j] == byte_len(src@.take(j)),
            forall|j: int|
                0 <= j < segs@.len() ==> segment_fits(#[trigger] segs@[j], src@.len() as int),
            views(issues@) == views(old(issues)@) + structural_issues(src@, segs@.take(k as int)),
        decreases segs.len() - k,
    {
        let seg = segs[k];
        let ghost before = structural_issues(src@, segs@.take(k as int));
        proof {
            assert(segs@.take(k as int + 1).drop_last() =~= segs@.take(k as int));
            assert(segment_fits(segs@[k as int], src@.len() as int));
            crate::text::lemma_byte_len_subrange(src@, seg.start as int, seg.end as int);
        }
        match seg.kind {
            SegmentKind::StrayClose => {
                let issue = Issue {
                    id: "command:unmatched_closing_delim",
                    msg: "Unmatched '%)'".to_string(),
                    span: Span { start: offsets[seg.start], len: 2 },
                };
                proof {
                    assert(issue@ == stray_close_issue(src@, seg));
                    assert(views(issues@.push(issue)) =~= views(issues@).push(issue@));
                    assert((views(old(issues)@) + before).push(issue@) =~= views(old(issues)@)
                        + before.push(issue@));
                }
                issues.push(issue);
            },
            SegmentKind::OpenCommand => {
                let issue = Issue {
                    id: "command:no_end",
                    msg: "Command has no end".to_string(),
                    span: Span {
                        start: offsets[seg.start],
                        len: offsets[seg.end] - offsets[seg.start],
                    },
                };
                proof {
                    assert(issue@ == no_end_issue(src@, seg));
                    assert(views(issues@.push(issue)) =~= views(issues@).push(issue@));
                    assert((views(old(issues)@) + before).push(issue@) =~= views(old(issues)@)
                        + before.push(issue@));
                }
                issues.push(issue);
            },
            _ => {},
        }
        k += 1;
    }
    proof {
        assert(segs@.take(segs@.len() as int) =~= segs@);
    }
}

/// A parsed unit of a source text.
#[derive(Debug, Clone, PartialEq, Eq)]
pub enum SourceAtom {
    /// Literal text, to be passed through.
    Str(String),
    /// The text of a command, between its delimiters: the name of the
    /// command, then, where it has a body, one white space and the body.
    Command(String),
}

/// What a [`SourceAtom`] holds, as character sequences.
pub enum AtomView {
    Str(Seq<char>),
    Command(Seq<char>),
}

impl View for SourceAtom {
    type V = AtomView;

    open spec fn view(&self) -> AtomView {
        match self {
            SourceAtom::Str(s) => AtomView::Str(s@),
            SourceAtom::Command(s) => AtomView::Command(s@),
        }
    }
}

/// What each atom of a list holds.
pub open spec fn atom_views(atoms: Seq<SourceAtom>) -> Seq<AtomView> {
    atoms.map_values(|a: SourceAtom| a@)
}

/// The atoms that the segments `segs` of `src` stand for, in order: the
/// literal text that is not empty, and the text of every command.
pub open spec fn atoms_of(src: Seq<char>, segs: Seq<Segment>) -> Seq<AtomView>
    decreases segs.len(),
{
    if segs.len() == 0 {
        Seq::empty()
    } else {
        let before = atoms_of(src, segs.drop_last());
        let seg = segs.last();
        let text = src.subrange(seg.start as int, seg.end as int);
        match seg.kind {
            SegmentKind::Literal => if seg.start < seg.end {
                before.push(AtomView::Str(text))
            } else {
                before
            },
            SegmentKind::Command => before.push(AtomView::Command(text)),
            SegmentKind::OpenCommand => before.push(AtomView::Command(text)),
            SegmentKind::StrayClose => before,
        }
    }
}

/// Cuts the source text `s` into literal text and commands, in the order in
/// which they stand in `s`, and pushes an issue onto `issues` for each `%)`
/// that closes nothing and for a command that nothing closes.
///
/// A `%)` that closes nothing is left out of the literal text around it. A
/// command that nothing closes reaches to the end of `s`.
pub fn parse_commands(s: String, issues: &mut Vec<Issue>) -> (atoms: Vec<SourceAtom>)
    ensures
        atom_views(atoms@) == atoms_of(s@, segments(s@)),
        views(final(issues)@) == views(old(issues)@) + structural_issues(s@, segments(s@)),
{
    let src = chars_of(s.as_str());
    let offsets = byte_offsets(&src);
    let segs = scan_segments(&src);
    push_structural_issues(&src, &offsets, &segs, issues);
    let mut atoms: Vec<SourceAtom> = Vec::new();
    let mut k: usize = 0;
    while k < segs.len()
        invariant
            k <= segs.len(),
            src@ == s@,
            forall|j: int|
                0 <= j < segs@.len() ==> segment_fits(#[trigger] segs@[j], src@.len() as int),
            atom_views(atoms@) == atoms_of(src@, segs@.take(k as int)),
        decreases segs.len() - k,
    {
        let seg = segs[k];
        proof {
            assert(segs@.take(k as int + 1).drop_last() =~= segs@.take(k as int));
            assert(segment_fits(segs@[k as int], src@.len() as int));
        }
        match seg.kind {
            SegmentKind::Literal => {
                if seg.start < seg.end {
                    let atom = SourceAtom::Str(string_of(&slice_of(&src, seg.start, seg.end)));
                    proof {
                        assert(atom_views(atoms@.push(atom)) =~= atom_views(atoms@).push(atom@));
                    }
                    atoms.push(atom);
                }
            },
            SegmentKind::Command | SegmentKind::OpenCommand => {
                let atom = SourceAtom::Command(string_of(&slice_of(&src, seg.start, seg.end)));
                proof {
                    assert(atom_views(atoms@.push(atom)) =~= atom_views(atoms@).push(atom@));
                }
                atoms.push(atom);
            },
            SegmentKind::StrayClose => {},
        }
        k += 1;
    }
    proof {
        assert(segs@.take(segs@.len() as int) =~= segs@);
    }
    atoms
}

/// The text that the literal text of `src` from position `from` up to
/// position `to` gives in the output: the text itself, but for each
/// backslash that escapes a delimiter. A backslash escapes a delimiter if
/// the character after it would start a `(%` or a `%)` without it.
pub open spec fn literal_text(src: Seq<char>, from: int, to: int) -> Seq<char>
    decreases to - from,
{
    if from >= to {
        Seq::empty()
    } else if escapes_at(src, from) && from + 1 < to {
        if opens_at(src, from + 1) || closes_at(src, from + 1) {
            seq![src[from + 1]] + literal_text(src, from + 2, to)
        } else {
            seq![src[from], src[from + 1]] + literal_text(src, from + 2, to)
        }
    } else {
        seq![src[from]] + literal_text(src, from + 1, to)
    }
}

/// Appends to `out` what the literal text of `src` from position `from` up
/// to position `to` gives in the output: see [`literal_text`].
pub fn push_literal(out: &mut Vec<char>, src: &Vec<char>, from: usize, to: usize)
    requires
        from <= to <= src@.len(),
    ensures
        final(out)@ == old(out)@ + literal_text(src@, from as int, to as int),
{
    let n = src.len();
    let mut i: usize = from;
    while i < to
        invariant
            from <= i <= to + 1,
            to <= n,
            n == src@.len(),
            out@ + literal_text(src@, i as int, to as int) == old(out)@ + literal_text(
                src@,
                from as int,
                to as int,
            ),
        decreases to + 1 - i,
    {
        let c = src[i];
        if c == ESCAPE && i + 1 < to {
            let e = src[i + 1];
            let delimiter = i + 2 < n && ((e == '(' && src[i + 2] == '%') || (e == '%' && src[i
                + 2] == ')'));
            let ghost rest = literal_text(src@, i as int + 2, to as int);
            if delimiter {
                proof {
                    assert(out@.push(e) + rest =~= out@ + (seq![e] + rest));
                }
                out.push(e);
            } else {
                proof {
                    assert(out@.push(c).push(e) + rest =~= out@ + (seq![c, e] + rest));
                }
                out.push(c);
                out.push(e);
            }
            i += 2;
        } else {
            proof {
                let rest = literal_text(src@, i as int + 1, to as int);
                assert(out@.push(c) + rest =~= out@ + (seq![c] + rest));
            }
            out.push(c);
            i += 1;
        }
    }
    proof {
        assert(out@ + Seq::<char>::empty() =~= out@);
    }
}

/// Where the name of the command with text `t` ends: the position of the
/// first white space that is not escaped, looked for from position `i` on,
/// or the length of `t` if there is none.
pub open spec fn name_end(t: Seq<char>, i: int) -> int
    decreases t.len() - i,
{
    if i >= t.len() {
        t.len() as int
    } else if escapes_at(t, i) {
        name_end(t, i + 2)
    } else if crate::text::is_whitespace(t[i]) {
        i
    } else {
        name_end(t, i + 1)
    }
}

/// The name of a command ends at or after the position it is looked for
/// from, and within the text.
pub proof fn lemma_name_end_bounds(t: Seq<char>, i: int)
    requires
        0 <= i <= t.len(),
    ensures
        i <= name_end(t, i) <= t.len(),
    decreases t.len() - i,
{
    if i >= t.len() {
    } else if escapes_at(t, i) {
        lemma_name_end_bounds(t, i + 2);
    } else if crate::text::is_whitespace(t[i]) {
    } else {
        lemma_name_end_bounds(t, i + 1);
    }
}

/// Finds where the name of the command ends whose text is the part of `src`
/// from position `from` up to position `to`: see [`name_end`].
pub fn find_name_end(src: &Vec<char>, from: usize, to: usize) -> (r: usize)
    requires
        from <= to <= src@.len(),
    ensures
        from <= r <= to,
        r - from == name_end(src@.subrange(from as int, to as int), 0),
{
    let ghost t = src@.subrange(from as int, to as int);
    let mut i: usize = from;
    proof {
        lemma_name_end_bounds(t, 0);
    }
    while i < to
        invariant
            from <= i <= to,
            to <= src@.len(),
            t == src@.subrange(from as int, to as int),
            name_end(t, i - from) == name_end(t, 0),
        decreases to - i,
    {
        let c = src[i];
        assert(t[i - from] == c);
        if c == ESCAPE && i + 1 < to {
            i += 2;
        } else if crate::text::char_is_whitespace(c) {
            return i;
        } else {
            i += 1;
        }
    }
    i
}

} // verus!
