//! Laws of expansion: what holds of every source text.

use vstd::prelude::*;
use crate::issue::IssueView;
use crate::model::{
    expand, expand_segments, for_parse, lookup, run_for, silent, Context, Outcome, Registry, Store,
};
use crate::parser::{
    closes_at, escapes_at, literal_text, opens_at, segments, segments_from, structural_issues,
    ESCAPE, Segment, SegmentKind,
};
use crate::text::{byte_len, lemma_byte_len_subrange};

verus! {

/// Whether the character at position `i` of `s` is escaped: whether a
/// backslash stands before it that is not escaped itself.
pub open spec fn escaped_at(s: Seq<char>, i: int) -> bool
    decreases i,
{
    if i <= 0 || i >= s.len() {
        false
    } else {
        s[i - 1] == ESCAPE && !escaped_at(s, i - 1)
    }
}

/// Whether `s` holds no delimiter at all: neither `(%` nor `%)` occurs in
/// it, escaped or not.
pub open spec fn no_delimiters(s: Seq<char>) -> bool {
    forall|i: int| 0 <= i < s.len() ==> !opens_at(s, i) && !closes_at(s, i)
}

/// Whether `s` holds no command: every `(%` and every `%)` in it starts
/// with an escaped character.
pub open spec fn no_commands(s: Seq<char>) -> bool {
    forall|i: int| 0 <= i < s.len() && (opens_at(s, i) || closes_at(s, i)) ==> escaped_at(s, i)
}

/// A text without commands is one segment of literal text.
proof fn lemma_literal_segments(s: Seq<char>, i: int)
    requires
        no_commands(s),
        0 <= i <= s.len(),
        !escaped_at(s, i),
        s.len() <= usize::MAX,
    ensures
        segments_from(s, i, 0, 0) == seq![
            Segment { kind: SegmentKind::Literal, start: 0, end: s.len() as usize },
        ],
    decreases s.len() - i,
{
    if i >= s.len() {
    } else if escapes_at(s, i) {
        assert(escaped_at(s, i + 1));
        lemma_literal_segments(s, i + 2);
    } else {
        lemma_literal_segments(s, i + 1);
    }
}

/// Literal text without delimiters goes to the output as it stands.
proof fn lemma_literal_text_plain(s: Seq<char>, from: int)
    requires
        no_delimiters(s),
        0 <= from <= s.len(),
    ensures
        literal_text(s, from, s.len() as int) == s.subrange(from, s.len() as int),
    decreases s.len() - from,
{
    let to = s.len() as int;
    if from >= to {
        assert(s.subrange(from, to) =~= Seq::<char>::empty());
    } else if escapes_at(s, from) && from + 1 < to {
        lemma_literal_text_plain(s, from + 2);
        assert(seq![s[from], s[from + 1]] + s.subrange(from + 2, to) =~= s.subrange(from, to));
    } else {
        lemma_literal_text_plain(s, from + 1);
        assert(seq![s[from]] + s.subrange(from + 1, to) =~= s.subrange(from, to));
    }
}

/// Escaping: in a source text without commands nothing is treated as a
/// delimiter. Expanding it raises no issue, leaves the variables as they
/// are, and gives the text itself without the backslashes that escape a
/// delimiter.
pub proof fn law_escaped_delimiters_are_text(cmds: Registry, vars: Store, src: Seq<char>)
    requires
        no_commands(src),
        src.len() <= usize::MAX,
    ensures
        expand(cmds, vars, src) == (Outcome {
            text: literal_text(src, 0, src.len() as int),
            issues: Seq::empty(),
            vars,
        }),
{
    lemma_literal_segments(src, 0);
    let segs = segments(src);
    assert(segs.len() == 1);
    assert(segs.drop_last() =~= Seq::<Segment>::empty());
    assert(structural_issues(src, segs) =~= Seq::<IssueView>::empty()) by {
        reveal_with_fuel(structural_issues, 2);
    }
    assert(expand_segments(cmds, vars, src, segs, 0) == silent(vars));
    let r = expand_segments(cmds, vars, src, segs, 1);
    assert(r.text =~= literal_text(src, 0, src.len() as int));
    assert(structural_issues(src, segs) + r.issues =~= Seq::<IssueView>::empty());
}

/// What escaping removes: where a backslash stands before a `(` that is
/// followed by `%`, or before a `%` that is followed by `)`, the output
/// holds the delimiter without the backslash; exactly that one character is
/// gone at that position.
pub proof fn law_escape_is_removed(src: Seq<char>, from: int, to: int)
    requires
        0 <= from,
        from + 1 < to <= src.len(),
        escapes_at(src, from),
        opens_at(src, from + 1) || closes_at(src, from + 1),
    ensures
        literal_text(src, from, to) == seq![src[from + 1]] + literal_text(src, from + 2, to),
{
}

/// Round trip: expanding a source text that holds no delimiter gives the
/// text back unchanged, raises no issue, and leaves the variables as they
/// are.
pub proof fn law_round_trip(cmds: Registry, vars: Store, src: Seq<char>)
    requires
        no_delimiters(src),
        src.len() <= usize::MAX,
    ensures
        expand(cmds, vars, src) == (Outcome { text: src, issues: Seq::empty(), vars }),
{
    law_escaped_delimiters_are_text(cmds, vars, src);
    lemma_literal_text_plain(src, 0);
    assert(src.subrange(0, src.len() as int) =~= src);
}

/// Variable scoping: after a loop, the loop variable is as it was when the
/// loop started, after its configuration was read: it has the value it had
/// then, or none if it had none.
pub proof fn law_loop_variable_is_restored(cmds: Registry, vars: Store, ctx: Context)
    requires
        for_parse(cmds, vars, ctx).plan is Ok,
    ensures
        ({
            let p = for_parse(cmds, vars, ctx);
            lookup(run_for(cmds, vars, ctx).vars, p.plan->Ok_0.name) == lookup(
                p.vars,
                p.plan->Ok_0.name,
            )
        }),
{
}

/// Span accuracy: a position in a part of a text is the position in the
/// text that lies as many bytes behind the start of the part. So the region
/// of an issue that was raised in the part, moved by the byte offset of the
/// part, is the region in the whole text.
pub proof fn law_offsets_add(src: Seq<char>, from: int, to: int, k: int)
    requires
        0 <= from <= to <= src.len(),
        0 <= k <= to - from,
    ensures
        byte_len(src.take(from)) + byte_len(src.subrange(from, to).take(k)) == byte_len(
            src.take(from + k),
        ),
{
    lemma_byte_len_subrange(src, from, from + k);
    assert(src.subrange(from, to).take(k) =~= src.subrange(from, from + k));
}

/// How many commands deep a reader is after it has read `t` from position
/// `i` on, if it was `lvl` commands deep in `t` before: a `(%` goes one
/// level deeper, a `%)` one level up. `None` if a `%)` closes more than
/// was opened in `t`.
pub open spec fn depth_from(t: Seq<char>, i: int, lvl: nat) -> Option<nat>
    decreases t.len() - i,
{
    if i >= t.len() {
        Some(lvl)
    } else if escapes_at(t, i) {
        depth_from(t, i + 2, lvl)
    } else if opens_at(t, i) {
        depth_from(t, i + 1, lvl + 1)
    } else if closes_at(t, i) {
        if lvl == 0 {
            None
        } else {
            depth_from(t, i + 1, (lvl - 1) as nat)
        }
    } else {
        depth_from(t, i + 1, lvl)
    }
}

/// Whether `t` can be the text of a command: every `(%` in it has its
/// `%)` in it, no `%)` in it closes more, and it does not end in a `(` or
/// a backslash that is not escaped, which would take the `%` of the
/// closing delimiter for its own.
pub open spec fn balanced(t: Seq<char>) -> bool {
    &&& depth_from(t, 0, 0) == Some(0nat)
    &&& t.len() > 0 && (t.last() == '(' || t.last() == ESCAPE) ==> escaped_at(t, t.len() - 1)
}

/// `t` between the delimiters of a command.
pub open spec fn delimited(t: Seq<char>) -> Seq<char> {
    seq!['(', '%'] + t + seq!['%', ')']
}

/// The segments of a command whose text is `t`: nothing before it, the
/// command, and nothing behind it.
pub open spec fn one_command(t: Seq<char>) -> Seq<Segment> {
    seq![
        Segment { kind: SegmentKind::Literal, start: 0, end: 0 },
        Segment { kind: SegmentKind::Command, start: 2, end: (t.len() + 2) as usize },
        Segment {
            kind: SegmentKind::Literal,
            start: (t.len() + 4) as usize,
            end: (t.len() + 4) as usize,
        },
    ]
}

/// Reading on inside a command whose text is balanced ends the command at
/// its own closing delimiter.
proof fn lemma_inside_balanced(t: Seq<char>, i: int, lvl: nat)
    requires
        0 <= i <= t.len(),
        !escaped_at(t, i),
        depth_from(t, i, lvl) == Some(0nat),
        t.len() > 0 && (t.last() == '(' || t.last() == ESCAPE) ==> escaped_at(t, t.len() - 1),
        t.len() + 4 <= usize::MAX,
    ensures
        segments_from(delimited(t), i + 2, lvl + 1, 2) == one_command(t).skip(1),
    decreases t.len() - i,
{
    let src = delimited(t);
    let n = t.len() as int;
    assert(src.len() == n + 4);
    assert(forall|j: int| 0 <= j < n ==> src[j + 2] == t[j]);
    assert(src[n + 2] == '%' && src[n + 3] == ')');
    if i >= n {
        assert(lvl == 0);
        assert(closes_at(src, n + 2));
        assert(!escapes_at(src, n + 2));
        assert(!opens_at(src, n + 2));
        assert(segments_from(src, n + 4, 0, n + 4) =~= seq![
            Segment {
                kind: SegmentKind::Literal,
                start: (n + 4) as usize,
                end: (n + 4) as usize,
            },
        ]);
        assert(segments_from(src, n + 2, 1, 2) =~= one_command(t).skip(1));
    } else {
        if i == n - 1 {
            assert(t[i] == t.last());
            assert(t[i] != '(' && t[i] != ESCAPE);
        }
        assert(escapes_at(src, i + 2) == escapes_at(t, i));
        assert(opens_at(src, i + 2) == opens_at(t, i));
        assert(closes_at(src, i + 2) == closes_at(t, i));
        if escapes_at(t, i) {
            assert(escaped_at(t, i + 1));
            lemma_inside_balanced(t, i + 2, lvl);
        } else if opens_at(t, i) {
            lemma_inside_balanced(t, i + 1, lvl + 1);
        } else if closes_at(t, i) {
            lemma_inside_balanced(t, i + 1, (lvl - 1) as nat);
        } else {
            lemma_inside_balanced(t, i + 1, lvl);
        }
    }
}

/// Nesting: a command whose text holds commands of its own, each of them
/// closed, is one segment that reaches from its own `(%` to its own `%)`.
/// It is not cut at the delimiters inside it.
pub proof fn law_nested_command_is_one_segment(t: Seq<char>)
    requires
        balanced(t),
        t.len() + 4 <= usize::MAX,
    ensures
        segments(delimited(t)) == one_command(t),
        crate::parser::atoms_of(delimited(t), segments(delimited(t))) == seq![
            crate::parser::AtomView::Command(t),
        ],
        structural_issues(delimited(t), segments(delimited(t))) == Seq::<IssueView>::empty(),
{
    let src = delimited(t);
    lemma_inside_balanced(t, 0, 0);
    assert(opens_at(src, 0));
    assert(!escapes_at(src, 0));
    let segs = segments(src);
    assert(segs =~= one_command(t));
    assert(segs.drop_last().drop_last().drop_last() =~= Seq::<Segment>::empty());
    assert(src.subrange(2, t.len() as int + 2) =~= t);
    reveal_with_fuel(crate::parser::atoms_of, 4);
    reveal_with_fuel(structural_issues, 4);
    assert(segs.drop_last().drop_last() =~= seq![segs[0]]);
    assert(segs.drop_last() =~= seq![segs[0], segs[1]]);
}

/// Whether `name` is a plain name: it holds neither a backslash nor white
/// space nor any of `%(){}`.
pub open spec fn plain_name(name: Seq<char>) -> bool {
    forall|i: int|
        0 <= i < name.len() ==> (#[trigger] name[i]) != ESCAPE && !crate::escape::is_command_char(
            name[i],
        )
}

/// The text of the command with the plain name `name` and the body `x`.
pub open spec fn command_text(name: Seq<char>, x: Seq<char>) -> Seq<char> {
    name + seq![' '] + x
}

/// The pairs of a text without backslashes are its characters, none of
/// them escaped, and turning them into text again gives the text.
proof fn lemma_plain_pairs(name: Seq<char>)
    requires
        plain_name(name),
    ensures
        crate::escape::unescape(
            crate::escape::auto_escape(name, ESCAPE),
            crate::escape::Restore::AllExceptCommandChars,
            ESCAPE,
        ) == name,
    decreases name.len(),
{
    let items = crate::escape::auto_escape(name, ESCAPE);
    lemma_plain_items(name);
    lemma_plain_unescape(name, items);
}

/// The pairs of a text without backslashes: each character, not escaped.
proof fn lemma_plain_items(name: Seq<char>)
    requires
        plain_name(name),
    ensures
        crate::escape::auto_escape(name, ESCAPE) == name.map_values(|c: char| (false, c)),
    decreases name.len(),
{
    if name.len() > 0 {
        assert(name[0] != ESCAPE);
        let rest = name.skip(1);
        assert(plain_name(rest)) by {
            assert forall|i: int| 0 <= i < rest.len() implies (#[trigger] rest[i]) != ESCAPE
                && !crate::escape::is_command_char(rest[i]) by {
                assert(rest[i] == name[i + 1]);
            }
        }
        lemma_plain_items(rest);
        assert(seq![(false, name[0])] + rest.map_values(|c: char| (false, c)) =~= name.map_values(
            |c: char| (false, c),
        ));
    } else {
        assert(name.map_values(|c: char| (false, c)) =~= Seq::<(bool, char)>::empty());
    }
}

/// Turning pairs that are not escaped into text gives their characters.
proof fn lemma_plain_unescape(name: Seq<char>, items: Seq<(bool, char)>)
    requires
        items == name.map_values(|c: char| (false, c)),
    ensures
        crate::escape::unescape(items, crate::escape::Restore::AllExceptCommandChars, ESCAPE)
            == name,
    decreases name.len(),
{
    if name.len() > 0 {
        assert(items.drop_last() =~= name.drop_last().map_values(|c: char| (false, c)));
        lemma_plain_unescape(name.drop_last(), items.drop_last());
        assert(items.last() == (false, name.last()));
        assert(name.drop_last().push(name.last()) =~= name);
    } else {
        assert(name =~= Seq::<char>::empty());
    }
}

/// The name of a command with a plain name ends where the name ends.
proof fn lemma_plain_name_end(name: Seq<char>, x: Seq<char>, i: int)
    requires
        plain_name(name),
        0 <= i <= name.len(),
    ensures
        crate::parser::name_end(command_text(name, x), i) == name.len(),
    decreases name.len() - i,
{
    let t = command_text(name, x);
    if i < name.len() {
        assert(t[i] == name[i]);
        assert(!escapes_at(t, i));
        lemma_plain_name_end(name, x, i + 1);
    } else {
        assert(t[i] == ' ');
        assert(crate::text::is_whitespace(' '));
    }
}

/// Reading a text behind a plain name gives the depth that reading the
/// text alone gives, and escapes what it escapes there.
proof fn lemma_depth_behind_name(name: Seq<char>, x: Seq<char>, j: int, lvl: nat)
    requires
        plain_name(name),
        0 <= j <= x.len(),
    ensures
        depth_from(command_text(name, x), name.len() + 1 + j, lvl) == depth_from(x, j, lvl),
    decreases x.len() - j,
{
    let t = command_text(name, x);
    let k = name.len() as int + 1;
    assert(forall|m: int| 0 <= m < x.len() ==> t[k + m] == x[m]);
    if j < x.len() {
        assert(escapes_at(t, k + j) == escapes_at(x, j));
        assert(opens_at(t, k + j) == opens_at(x, j));
        assert(closes_at(t, k + j) == closes_at(x, j));
        if escapes_at(x, j) {
            lemma_depth_behind_name(name, x, j + 2, lvl);
        } else if opens_at(x, j) {
            lemma_depth_behind_name(name, x, j + 1, lvl + 1);
        } else if closes_at(x, j) {
            if lvl > 0 {
                lemma_depth_behind_name(name, x, j + 1, (lvl - 1) as nat);
            }
        } else {
            lemma_depth_behind_name(name, x, j + 1, lvl);
        }
    }
}

/// Reading a plain name and the space behind it changes no depth.
proof fn lemma_depth_over_name(name: Seq<char>, x: Seq<char>, i: int)
    requires
        plain_name(name),
        0 <= i <= name.len() + 1,
    ensures
        depth_from(command_text(name, x), i, 0) == depth_from(x, 0, 0),
    decreases name.len() + 1 - i,
{
    let t = command_text(name, x);
    if i <= name.len() {
        if i < name.len() {
            assert(t[i] == name[i]);
            assert(crate::escape::is_command_char('(') && crate::escape::is_command_char('%'));
        } else {
            assert(t[i] == ' ');
        }
        assert(!escapes_at(t, i));
        assert(!opens_at(t, i));
        assert(!closes_at(t, i));
        lemma_depth_over_name(name, x, i + 1);
    } else {
        lemma_depth_behind_name(name, x, 0, 0);
    }
}

/// A character behind a plain name is escaped where it is escaped in the
/// text alone.
proof fn lemma_escaped_behind_name(name: Seq<char>, x: Seq<char>, j: int)
    requires
        plain_name(name),
        0 <= j < x.len(),
    ensures
        escaped_at(command_text(name, x), name.len() + 1 + j) == escaped_at(x, j),
    decreases j,
{
    let t = command_text(name, x);
    let k = name.len() as int + 1;
    assert(forall|m: int| 0 <= m < x.len() ==> t[k + m] == x[m]);
    assert(t[k - 1] == ' ');
    if j > 0 {
        lemma_escaped_behind_name(name, x, j - 1);
    }
}

/// A plain name, a space and a balanced text are a balanced text.
pub proof fn lemma_command_text_balanced(name: Seq<char>, x: Seq<char>)
    requires
        plain_name(name),
        balanced(x),
    ensures
        balanced(command_text(name, x)),
        crate::model::command_name(command_text(name, x)) == name,
        crate::model::command_body(command_text(name, x)) == x,
        crate::parser::name_end(command_text(name, x), 0) == name.len(),
{
    let t = command_text(name, x);
    lemma_depth_over_name(name, x, 0);
    lemma_plain_name_end(name, x, 0);
    lemma_plain_pairs(name);
    assert(t.take(name.len() as int) =~= name);
    assert(t.skip(name.len() as int + 1) =~= x);
    if x.len() > 0 {
        lemma_escaped_behind_name(name, x, x.len() - 1);
        assert(t.last() == x.last());
    } else {
        assert(t.last() == ' ');
    }
}

/// Expanding one command gives what running the command gives.
proof fn lemma_command_outcome(cmds: Registry, vars: Store, t: Seq<char>)
    requires
        balanced(t),
        t.len() + 4 <= usize::MAX,
    ensures
        expand(cmds, vars, delimited(t)) == crate::model::run_command(
            cmds,
            vars,
            delimited(t),
            one_command(t)[1],
        ),
{
    let src = delimited(t);
    law_nested_command_is_one_segment(t);
    let segs = segments(src);
    let seg = segs[1];
    let r = crate::model::run_command(cmds, vars, src, seg);
    reveal_with_fuel(expand_segments, 4);
    assert(literal_text(src, 0, 0) =~= Seq::<char>::empty());
    assert(literal_text(src, t.len() as int + 4, t.len() as int + 4) =~= Seq::<char>::empty());
    let e1 = expand_segments(cmds, vars, src, segs, 1);
    assert(e1.text =~= Seq::<char>::empty());
    assert(e1.issues =~= Seq::<IssueView>::empty());
    let e2 = expand_segments(cmds, vars, src, segs, 2);
    assert(e2.text =~= r.text);
    assert(e2.issues =~= r.issues);
    let e3 = expand_segments(cmds, vars, src, segs, 3);
    assert(e3.text =~= r.text);
    assert(structural_issues(src, segs) + e3.issues =~= r.issues);
}

/// What stands before the body of the command with the plain name `name`:
/// the opening delimiter, the name, and a space.
pub open spec fn command_head(name: Seq<char>) -> Seq<char> {
    seq!['(', '%'] + name + seq![' ']
}

/// What the command with the plain name `name` and the body `x` is called
/// with, where it is all of the source text.
pub open spec fn command_context(name: Seq<char>, x: Seq<char>) -> Context {
    Context {
        body: x,
        body_span: crate::span::Span {
            start: byte_len(command_head(name)) as usize,
            len: byte_len(x) as usize,
        },
        cmd_span: crate::span::Span {
            start: 0,
            len: byte_len(delimited(command_text(name, x))) as usize,
        },
    }
}

/// Expanding a command with a plain name that a handler is known for gives
/// what the handler gives for its body.
#[verifier::rlimit(50)]
proof fn lemma_plain_command_runs(cmds: Registry, vars: Store, name: Seq<char>, x: Seq<char>)
    requires
        plain_name(name),
        cmds.handlers.contains_key(name),
        balanced(x),
        name.len() + x.len() + 5 <= usize::MAX,
    ensures
        expand(cmds, vars, delimited(command_text(name, x))) == crate::model::run_handler(
            cmds.handlers[name],
            cmds,
            vars,
            command_context(name, x),
        ),
{
    let t = command_text(name, x);
    let src = delimited(t);
    let seg = one_command(t)[1];
    lemma_command_text_balanced(name, x);
    lemma_command_outcome(cmds, vars, t);
    assert(src.subrange(2, t.len() as int + 2) =~= t);
    assert(src.take(seg.end - x.len()) =~= command_head(name));
    assert(src.take(0) =~= Seq::<char>::empty());
    assert(src.subrange(0, seg.end + 2) =~= src);
    assert(crate::model::body_span(src, seg) == command_context(name, x).body_span);
    assert(crate::model::command_span(src, seg) == command_context(name, x).cmd_span);
}

/// The literal command: where a plain name stands for the handler that
/// gives its body as it stands, as `lit` does, expanding `(%lit X%)` gives
/// `X` verbatim, whatever delimiters `X` holds: nothing in it is expanded,
/// no issue is raised, and the variables stay as they are.
pub proof fn law_literal_is_verbatim(cmds: Registry, vars: Store, name: Seq<char>, x: Seq<char>)
    requires
        plain_name(name),
        cmds.handlers.contains_key(name),
        cmds.handlers[name] == crate::model::CommandHandler::Literal,
        balanced(x),
        name.len() + x.len() + 5 <= usize::MAX,
    ensures
        expand(cmds, vars, delimited(command_text(name, x))) == (Outcome {
            text: x,
            issues: Seq::empty(),
            vars,
        }),
{
    lemma_plain_command_runs(cmds, vars, name, x);
}

/// Span accuracy: where a plain name stands for the handler that expands
/// its body, as `eval` does, expanding `(%eval X%)` gives what expanding
/// `X` gives, and every issue raised in `X` is reported where it stands in
/// the whole text: as many bytes further on as stand before `X`.
pub proof fn law_issues_are_reported_in_place(
    cmds: Registry,
    vars: Store,
    name: Seq<char>,
    x: Seq<char>,
)
    requires
        plain_name(name),
        cmds.handlers.contains_key(name),
        cmds.handlers[name] == crate::model::CommandHandler::Eval,
        balanced(x),
        byte_len(command_head(name)) <= usize::MAX,
        name.len() + x.len() + 5 <= usize::MAX,
    ensures
        expand(cmds, vars, delimited(command_text(name, x))) == crate::model::moved(
            expand(cmds, vars, x),
            byte_len(command_head(name)) as int,
        ),
{
    lemma_plain_command_runs(cmds, vars, name, x);
}

/// Span accuracy in a loop: the text that a loop repeats is the end of the
/// body of the command, and the loop knows at which byte it starts there.
/// Every time the text is expanded, the issues raised in it are moved by
/// that offset and by the offset of the body: so on every iteration they
/// are reported where the text stands in the source.
pub proof fn law_loop_text_is_placed(cmds: Registry, vars: Store, ctx: Context)
    requires
        for_parse(cmds, vars, ctx).plan is Ok,
    ensures
        ({
            let plan = for_parse(cmds, vars, ctx).plan->Ok_0;
            let at = ctx.body.len() - plan.body.len();
            &&& 0 <= at <= ctx.body.len()
            &&& plan.body == ctx.body.subrange(at, ctx.body.len() as int)
            &&& byte_len(ctx.body.take(at)) <= usize::MAX ==> plan.body_at.start == byte_len(
                ctx.body.take(at),
            )
        }),
{
    let b = ctx.body;
    let semi = crate::tools::first_sep(b, ';', 0);
    crate::tools::lemma_sep_from_bounds(b, ';', 0, 0, false);
    let plan = for_parse(cmds, vars, ctx).plan->Ok_0;
    assert(plan.body == crate::model::loop_body(b));
    if semi < b.len() {
        assert(b.subrange(0, semi + 1) =~= b.take(semi + 1));
    } else {
        assert(b.subrange(0, b.len() as int) =~= b.take(b.len() as int));
        assert(b.subrange(b.len() as int, b.len() as int) =~= Seq::<char>::empty());
    }
}

/// One turn of a loop over a list: the loop variable gets the entry as its
/// value, the text is expanded, the regions of its issues are moved by
/// `shift`, and the loop goes on with the next entry.
pub proof fn law_loop_turn(
    cmds: Registry,
    vars: Store,
    body: Seq<char>,
    limit: nat,
    shift: int,
    name: Seq<char>,
    items: Seq<Seq<char>>,
    k: int,
)
    requires
        0 <= k < items.len(),
        body.len() <= limit,
    ensures
        ({
            let turn = crate::model::moved(
                expand(cmds, vars.insert(name, items[k]), body),
                shift,
            );
            let rest = crate::model::for_list(
                cmds,
                turn.vars,
                body,
                limit,
                shift,
                name,
                items,
                k + 1,
            );
            crate::model::for_list(cmds, vars, body, limit, shift, name, items, k) == (Outcome {
                text: turn.text + rest.text,
                issues: turn.issues + rest.issues,
                vars: rest.vars,
            })
        }),
{
    let turn = crate::model::expand_part(cmds, vars.insert(name, items[k]), body, limit, shift);
    assert(turn == crate::model::moved(expand(cmds, vars.insert(name, items[k]), body), shift));
    let rest = crate::model::for_list(cmds, turn.vars, body, limit, shift, name, items, k + 1);
    assert(crate::model::for_list(cmds, vars, body, limit, shift, name, items, k) == (Outcome {
        text: turn.text + rest.text,
        issues: turn.issues + rest.issues,
        vars: rest.vars,
    }));
}

} // verus!
