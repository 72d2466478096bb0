//! Problems met while a text is expanded.
//!
//! The engine always gives an end result, be it empty. So nothing that goes
//! wrong stops an expansion: every problem is recorded as an [`Issue`] and
//! the work goes on.

use vstd::prelude::*;
use vstd::string::StringExecFns;
use crate::span::{is_boundary, row_col_at, row_col_text, RowCol, Span};
use crate::text::byte_len;

verus! {

/// A problem met while a text was expanded.
#[derive(Debug, Clone, PartialEq, Eq)]
pub struct Issue {
    /// An identifier for the kind of issue, such as `command:missing_args`.
    /// Several issues may have the same one.
    pub id: &'static str,
    /// A message that describes the issue.
    pub msg: String,
    /// The region the issue occurred in.
    pub span: Span,
}

/// What an [`Issue`] says: its identifier and message as character
/// sequences, and its region.
pub struct IssueView {
    pub id: Seq<char>,
    pub msg: Seq<char>,
    pub span: Span,
}

impl View for Issue {
    type V = IssueView;

    open spec fn view(&self) -> IssueView {
        IssueView { id: self.id@, msg: self.msg@, span: self.span }
    }
}

/// What each issue of a list says.
pub open spec fn views(issues: Seq<Issue>) -> Seq<IssueView> {
    issues.map_values(|i: Issue| i@)
}

/// The issue `v` with its region moved forward by `by` bytes.
pub open spec fn shifted(v: IssueView, by: int) -> IssueView {
    IssueView { id: v.id, msg: v.msg, span: v.span.shifted(by) }
}

/// The issues `vs`, each with its region moved forward by `by` bytes.
pub open spec fn shifted_all(vs: Seq<IssueView>, by: int) -> Seq<IssueView> {
    vs.map_values(|v: IssueView| shifted(v, by))
}

/// Whether the region of every issue lies within a text of `total` bytes.
pub open spec fn all_within(vs: Seq<IssueView>, total: int) -> bool {
    forall|i: int| 0 <= i < vs.len() ==> (#[trigger] vs[i]).span.within(total)
}

/// The text that presents an issue whose region starts at `start` and ends
/// at `end`.
pub open spec fn issue_text(v: IssueView, start: RowCol, end: RowCol) -> Seq<char> {
    "["@ + v.id + " at "@ + row_col_text(start) + "..."@ + row_col_text(end) + "] "@ + v.msg
}

/// An [`Issue`] together with the positions of its region in the text it
/// was found in, ready to be turned into text.
#[derive(Debug, Clone, PartialEq, Eq)]
pub struct IssueDisplay<'a> {
    id: &'static str,
    msg: &'a str,
    start: RowCol,
    end: RowCol,
}

impl<'a> IssueDisplay<'a> {
    /// The text that this value presents.
    pub closed spec fn text(&self) -> Seq<char> {
        issue_text(
            IssueView { id: self.id@, msg: self.msg@, span: Span { start: 0, len: 0 } },
            self.start,
            self.end,
        )
    }

    /// The issue as one line of text: `[id at row:col...row:col] message`,
    /// with rows and columns counted from one.
    pub fn to_string(&self) -> (r: String)
        ensures
            r@ == self.text(),
    {
        let mut out = String::from_str("[");
        out.append(self.id);
        out.append(" at ");
        out.append(self.start.to_string().as_str());
        out.append("...");
        out.append(self.end.to_string().as_str());
        out.append("] ");
        out.append(self.msg);
        out
    }
}

/// The message of an issue about input or output that failed: `error` is
/// what went wrong, `extra`, where there is one, says what was being done.
pub open spec fn io_error_msg(error: Seq<char>, extra: Option<Seq<char>>) -> Seq<char> {
    match extra {
        Some(e) => "IO Error"@ + " "@ + e + ": "@ + error,
        None => "IO Error"@ + ": "@ + error,
    }
}

impl Issue {
    /// Creates an issue about input or output that failed: `error` is the
    /// text of the error, `extra` says what was being done.
    pub fn io_error(error: &str, span: Span, extra: Option<&str>) -> (r: Self)
        ensures
            r@ == (IssueView { id: "io_error"@, msg: io_error_msg(error@, match extra {
                Some(e) => Some(e@),
                None => None,
            }), span }),
    {
        let mut msg = String::from_str("IO Error");
        match extra {
            Some(e) => {
                msg.append(" ");
                msg.append(e);
            },
            None => {},
        }
        msg.append(": ");
        msg.append(error);
        Self { id: "io_error", msg, span }
    }

    /// Creates a value that presents this issue with the positions of its
    /// region in `source`, the text that the issue was found in.
    pub fn display<'a>(&'a self, source: &str) -> (r: IssueDisplay<'a>)
        requires
            is_boundary(source@, self.span.start as int),
            is_boundary(source@, self.span.end_pos()),
        ensures
            forall|a: int, b: int|
                0 <= a <= source@.len() && 0 <= b <= source@.len()
                    && #[trigger] byte_len(source@.take(a)) == self.span.start
                    && #[trigger] byte_len(source@.take(b)) == self.span.end_pos()
                    ==> r.text() == issue_text(
                    self@,
                    row_col_at(source@, a),
                    row_col_at(source@, b),
                ),
    {
        let (start, end) = self.span.start_end_loc(source);
        IssueDisplay { id: self.id, msg: self.msg.as_str(), start, end }
    }
}

/// Appends `new_issues` to `issues`, each moved forward by `subspan.start`.
///
/// `new_issues` were found in a part of a text, and `subspan` is where that
/// part lies in the whole: moving them makes their regions regions of the
/// whole. No moved region may reach past the end of `subspan`.
pub fn absorb_new_issues(issues: &mut Vec<Issue>, subspan: Span, new_issues: Vec<Issue>)
    requires
        subspan.end_pos() <= usize::MAX,
        all_within(views(new_issues@), subspan.len as int),
    ensures
        views(final(issues)@) == views(old(issues)@) + shifted_all(
            views(new_issues@),
            subspan.start as int,
        ),
{
    let mut i: usize = 0;
    while i < new_issues.len()
        invariant
            i <= new_issues.len(),
            subspan.end_pos() <= usize::MAX,
            all_within(views(new_issues@), subspan.len as int),
            views(issues@) == views(old(issues)@) + shifted_all(
                views(new_issues@.take(i as int)),
                subspan.start as int,
            ),
        decreases new_issues.len() - i,
    {
        let e = &new_issues[i];
        proof {
            assert(views(new_issues@)[i as int].span.within(subspan.len as int));
        }
        let moved = Issue {
            id: e.id,
            msg: e.msg.clone(),
            span: Span { start: e.span.start + subspan.start, len: e.span.len },
        };
        proof {
            let before = views(issues@);
            let ghost_new = new_issues@.take(i as int + 1);
            assert(moved@ == shifted(e@, subspan.start as int));
            assert(views(issues@.push(moved)) =~= views(issues@).push(moved@));
            assert(shifted_all(views(new_issues@.take(i as int + 1)), subspan.start as int)
                =~= shifted_all(views(new_issues@.take(i as int)), subspan.start as int).push(
                moved@,
            ));
        }
        issues.push(moved);
        i += 1;
    }
    proof {
        assert(new_issues@.take(new_issues@.len() as int) =~= new_issues@);
    }
}

} // verus!
