//! What expanding a text means.
//!
//! The functions here say, as mathematics, what the engine gives for a
//! source text: the output text, the issues in the order in which they are
//! raised, and the variables as they stand afterwards. The engine's
//! functions are proved to compute exactly this.
//!
//! Expansion is recursive, and it ends: a command hands only parts of its
//! own body back to the engine, and the body of a command is shorter than
//! the text that holds the command.

use vstd::prelude::*;
use crate::escape::{auto_escape, split_not_escaped, unescape, Restore};
use crate::issue::{shifted_all, IssueView};
use crate::number::{decimal, parsed_i128};
use crate::parser::{
    literal_text, name_end, segment_fits, segments, structural_issues, ESCAPE, Segment, SegmentKind,
};
use crate::sort::sorted_by_key;
use crate::span::{row_col_at, row_col_text, Span};
use crate::text::{byte_len, is_whitespace};
use crate::tools::{first_sep, join_with};

verus! {

/// What a command does with its body.
#[derive(Debug, Copy, Clone, PartialEq, Eq, Structural)]
pub enum CommandHandler {
    /// Gives its body as it stands, unexpanded.
    Literal,
    /// Gives its body, expanded.
    Eval,
    /// Gives the value of the variable that its expanded body names.
    GetVar,
    /// Sets a variable: its expanded body is a name, `=` and a value.
    SetVar,
    /// Gives the first of the alternatives in its expanded body, which are
    /// separated by colons, that is not empty.
    Fallback,
    /// Sorts a list by a key that is computed for each entry.
    SortBy,
    /// Repeats a text for every value of a range or a list.
    For,
    /// Runs a process and gives what it printed. The host runs it.
    Run,
    /// Gives the content of a file. The host reads it.
    Include,
    /// Lists the entries of a directory. The host reads it.
    Lsdir,
}

/// The variables of an engine: the value of each, by name.
pub type Store = Map<Seq<char>, Seq<char>>;

/// The handler of each command, by name.
pub type Handlers = Map<Seq<char>, CommandHandler>;

/// What the host answered to a request: the text it gave, and what went
/// wrong while it worked.
pub struct Answer {
    pub text: Seq<char>,
    pub errors: Seq<Seq<char>>,
}

/// What an engine knows and does not change while it expands a text: the
/// handler of each command, by name, and the answers of the host, by
/// request.
pub struct Registry {
    pub handlers: Handlers,
    pub answers: Map<Seq<char>, Answer>,
}

/// What an expansion gives.
pub struct Outcome {
    /// The output text.
    pub text: Seq<char>,
    /// The issues raised, in order.
    pub issues: Seq<IssueView>,
    /// The variables as they stand afterwards.
    pub vars: Store,
}

/// What a command is called with.
pub struct Context {
    /// The body of the command.
    pub body: Seq<char>,
    /// Where the body lies in the source text.
    pub body_span: Span,
    /// Where the whole command lies in the source text, delimiters
    /// included.
    pub cmd_span: Span,
}

/// The outcome that gives no text, raises no issue and leaves the
/// variables `vars` as they are.
pub open spec fn silent(vars: Store) -> Outcome {
    Outcome { text: Seq::empty(), issues: Seq::empty(), vars }
}

/// The issue that a command raises for an argument that is missing: its
/// region is the whole command.
pub open spec fn missing_args_issue(ctx: Context, msg: Seq<char>) -> IssueView {
    IssueView { id: "command:missing_args"@, msg, span: ctx.cmd_span }
}

/// The issue that a command raises for an argument that is not valid: its
/// region is the body of the command.
pub open spec fn invalid_args_issue(ctx: Context, msg: Seq<char>) -> IssueView {
    IssueView { id: "command:invalid_args"@, msg, span: ctx.body_span }
}

/// The variables `vars` with the variable `name` as it was before it was
/// shadowed: with the value `saved` if it had one, else without it.
pub open spec fn restored(vars: Store, name: Seq<char>, saved: Option<Seq<char>>) -> Store {
    match saved {
        Some(v) => vars.insert(name, v),
        None => vars.remove(name),
    }
}

/// The value of the variable `name` in `vars`, if it has one.
pub open spec fn lookup(vars: Store, name: Seq<char>) -> Option<Seq<char>> {
    if vars.contains_key(name) {
        Some(vars[name])
    } else {
        None
    }
}

/// What expanding the source text `src` gives, with the commands `cmds`
/// and starting from the variables `vars`.
///
/// The structural issues of `src` come first. Then its segments are taken
/// from left to right: literal text goes to the output, without the
/// backslashes that escape a delimiter; a command is replaced by what its
/// handler gives.
pub open spec fn expand(cmds: Registry, vars: Store, src: Seq<char>) -> Outcome
    decreases src.len(), 10nat, 0nat,
{
    let segs = segments(src);
    let r = expand_segments(cmds, vars, src, segs, segs.len());
    Outcome { text: r.text, issues: structural_issues(src, segs) + r.issues, vars: r.vars }
}

/// What the first `k` of the segments `segs` of `src` give.
pub open spec fn expand_segments(
    cmds: Registry,
    vars: Store,
    src: Seq<char>,
    segs: Seq<Segment>,
    k: nat,
) -> Outcome
    decreases src.len(), 9nat, k,
{
    if k == 0 || k > segs.len() {
        silent(vars)
    } else {
        let before = expand_segments(cmds, vars, src, segs, (k - 1) as nat);
        let seg = segs[k - 1];
        match seg.kind {
            SegmentKind::Literal => Outcome {
                text: before.text + literal_text(src, seg.start as int, seg.end as int),
                issues: before.issues,
                vars: before.vars,
            },
            SegmentKind::StrayClose => before,
            _ => {
                let r = run_command(cmds, before.vars, src, seg);
                Outcome {
                    text: before.text + r.text,
                    issues: before.issues + r.issues,
                    vars: r.vars,
                }
            },
        }
    }
}

/// The name of the command whose text is `t`: the text before the first
/// white space that is not escaped, where white space and `%`, `(`, `)`,
/// `{`, `}` stand without the backslash that escapes them.
pub open spec fn command_name(t: Seq<char>) -> Seq<char> {
    unescape(
        auto_escape(t.take(name_end(t, 0)), ESCAPE),
        Restore::AllExceptCommandChars,
        ESCAPE,
    )
}

/// The body of the command whose text is `t`: what follows the white space
/// that ends its name, as it stands.
pub open spec fn command_body(t: Seq<char>) -> Seq<char> {
    let h = name_end(t, 0);
    if 0 <= h < t.len() {
        t.skip(h + 1)
    } else {
        Seq::empty()
    }
}

/// Where the command of the segment `seg` of `src` lies in `src`, its
/// delimiters included.
pub open spec fn command_span(src: Seq<char>, seg: Segment) -> Span {
    let end = if seg.kind == SegmentKind::Command {
        seg.end + 2
    } else {
        seg.end as int
    };
    Span {
        start: byte_len(src.take(seg.start - 2)) as usize,
        len: byte_len(src.subrange(seg.start - 2, end)) as usize,
    }
}

/// Where the name of the command of the segment `seg` of `src` lies in
/// `src`, as it stands there.
pub open spec fn name_span(src: Seq<char>, seg: Segment) -> Span {
    let t = src.subrange(seg.start as int, seg.end as int);
    Span {
        start: byte_len(src.take(seg.start as int)) as usize,
        len: byte_len(t.take(name_end(t, 0))) as usize,
    }
}

/// Where the body of the command of the segment `seg` of `src` lies in
/// `src`: behind the white space that ends the name.
pub open spec fn body_span(src: Seq<char>, seg: Segment) -> Span {
    let t = src.subrange(seg.start as int, seg.end as int);
    Span {
        start: byte_len(src.take(seg.end - command_body(t).len())) as usize,
        len: byte_len(command_body(t)) as usize,
    }
}

/// The first characters of `t`, ten at most.
pub open spec fn preview(t: Seq<char>) -> Seq<char> {
    if t.len() < 10 {
        t
    } else {
        t.take(10)
    }
}

/// The issue that a command raises whose name no handler is known for.
pub open spec fn unknown_command_issue(src: Seq<char>, seg: Segment) -> IssueView {
    IssueView {
        id: "command:unknown"@,
        msg: "invalid or unknown command at "@ + row_col_text(row_col_at(src, seg.start - 2))
            + " (starting with `(%"@ + preview(src.subrange(seg.start as int, seg.end as int))
            + "`)"@,
        span: command_span(src, seg),
    }
}

/// What the command of the segment `seg` of `src` gives.
///
/// The handler is the one known under the name of the command. If there is
/// none and the command has no body, it is the one known under the empty
/// name, and the name of the command, as it stands in `src`, becomes the
/// body. If there is none either, the command gives no text and raises an
/// issue.
pub open spec fn run_command(cmds: Registry, vars: Store, src: Seq<char>, seg: Segment) -> Outcome
    decreases src.len(), 8nat, 0nat,
{
    let t = src.subrange(seg.start as int, seg.end as int);
    let h = name_end(t, 0);
    if !segment_fits(seg, src.len() as int) || seg.kind == SegmentKind::Literal || seg.kind
        == SegmentKind::StrayClose || !(0 <= h <= t.len()) {
        silent(vars)
    } else {
        let name = command_name(t);
        let body = command_body(t);
        let cmd_span = command_span(src, seg);
        if cmds.handlers.contains_key(name) {
            run_handler(
                cmds.handlers[name],
                cmds,
                vars,
                Context { body, body_span: body_span(src, seg), cmd_span },
            )
        } else if body.len() == 0 && cmds.handlers.contains_key(Seq::empty()) {
            run_handler(
                cmds.handlers[Seq::empty()],
                cmds,
                vars,
                Context { body: t.take(h), body_span: name_span(src, seg), cmd_span },
            )
        } else {
            Outcome {
                text: Seq::empty(),
                issues: seq![unknown_command_issue(src, seg)],
                vars,
            }
        }
    }
}

/// What expanding `text` gives to a command whose body is `limit`
/// characters long, where `text` lies `shift` bytes into the source text
/// of the command: the regions of the issues are moved by `shift`, so that
/// they are regions of that source text. A command expands no text that is
/// longer than its body.
pub open spec fn expand_part(cmds: Registry, vars: Store, text: Seq<char>, limit: nat, shift: int) -> Outcome
    decreases limit, 11nat, 0nat,
{
    if text.len() <= limit {
        moved(expand(cmds, vars, text), shift)
    } else {
        silent(vars)
    }
}

/// The outcome `o` with the regions of its issues moved forward by `shift`
/// bytes.
pub open spec fn moved(o: Outcome, shift: int) -> Outcome {
    Outcome { text: o.text, issues: shifted_all(o.issues, shift), vars: o.vars }
}

/// What the handler `h` gives when it is called with `ctx`.
pub open spec fn run_handler(h: CommandHandler, cmds: Registry, vars: Store, ctx: Context) -> Outcome
    decreases ctx.body.len(), 20nat, 0nat,
{
    match h {
        CommandHandler::Literal => Outcome { text: ctx.body, issues: Seq::empty(), vars },
        CommandHandler::Eval => run_eval(cmds, vars, ctx),
        CommandHandler::GetVar => run_get_var(cmds, vars, ctx),
        CommandHandler::SetVar => run_set_var(cmds, vars, ctx),
        CommandHandler::Fallback => run_fallback(cmds, vars, ctx),
        CommandHandler::SortBy => run_sort_by(cmds, vars, ctx),
        CommandHandler::For => run_for(cmds, vars, ctx),
        CommandHandler::Run => run_process(cmds, vars, ctx),
        CommandHandler::Include => run_include(cmds, vars, ctx),
        CommandHandler::Lsdir => run_lsdir(cmds, vars, ctx),
    }
}

/// The issue that tells that the host has not answered the request `key`
/// yet.
pub open spec fn pending_issue(ctx: Context, key: Seq<char>) -> IssueView {
    IssueView { id: "host:pending"@, msg: key, span: ctx.cmd_span }
}

/// The issues for what went wrong on the side of the host: one for each
/// of `errors`, in order, all with the region of the command.
pub open spec fn host_issues(ctx: Context, errors: Seq<Seq<char>>, doing: Seq<char>) -> Seq<
    IssueView,
> {
    errors.map_values(
        |e: Seq<char>|
            IssueView {
                id: "io_error"@,
                msg: crate::issue::io_error_msg(e, Some(doing)),
                span: ctx.cmd_span,
            },
    )
}

/// What asking the host gives: the text it answered the request `key`
/// with, and an issue for each thing that went wrong on its side. Where the
/// host has not answered the request yet, no text and an issue that says
/// so.
pub open spec fn ask_host(cmds: Registry, ctx: Context, key: Seq<char>, doing: Seq<char>) -> (
    Seq<char>,
    Seq<IssueView>,
) {
    if cmds.answers.contains_key(key) {
        (cmds.answers[key].text, host_issues(ctx, cmds.answers[key].errors, doing))
    } else {
        (Seq::empty(), seq![pending_issue(ctx, key)])
    }
}

/// What running a process gives: the expanded body is a command line. If
/// its first word is empty, there is no process to run: no text, and an
/// issue. Else the host is asked for `run` and the command line, and its
/// answer is the text.
pub open spec fn run_process(cmds: Registry, vars: Store, ctx: Context) -> Outcome
    decreases ctx.body.len(), 19nat, 1nat,
{
    let r = run_eval(cmds, vars, ctx);
    if crate::shell_util::shell_words(r.text)[0].len() == 0 {
        Outcome {
            text: Seq::empty(),
            issues: r.issues.push(missing_args_issue(ctx, "no process to run given"@)),
            vars: r.vars,
        }
    } else {
        let answer = ask_host(cmds, ctx, "run "@ + r.text, "while trying to run process"@);
        Outcome { text: answer.0, issues: r.issues + answer.1, vars: r.vars }
    }
}

/// What including a file gives: the expanded body is the path of the file.
/// The host is asked for `include` and the path, and its answer is the
/// text, which is not expanded.
pub open spec fn run_include(cmds: Registry, vars: Store, ctx: Context) -> Outcome
    decreases ctx.body.len(), 19nat, 1nat,
{
    let r = run_eval(cmds, vars, ctx);
    let answer = ask_host(cmds, ctx, "include "@ + r.text, "while trying to read file"@);
    Outcome { text: answer.0, issues: r.issues + answer.1, vars: r.vars }
}

/// Which entries of a directory are listed.
pub struct Listing {
    /// The path of the directory.
    pub path: Seq<char>,
    /// The patterns of the names that are left out.
    pub exclude_by_name: Seq<Seq<char>>,
    /// The patterns of the names that are listed, if not all are.
    pub include_only_by_name: Option<Seq<Seq<char>>>,
}

/// The position of the first space in `s` at or after position `i`, or
/// the length of `s` if there is none.
pub open spec fn space_in(s: Seq<char>, i: int) -> int {
    crate::shell_util::index_of(s, ' ', i)
}

/// The issue for an argument of a listing that starts with a word that is
/// not known.
pub open spec fn unknown_verb_issue(ctx: Context, verb: Seq<char>) -> IssueView {
    IssueView {
        id: "command:invalid_args:partial"@,
        msg: "warning: ignoring unrecognised verb `"@ + verb + "`"@,
        span: ctx.cmd_span,
    }
}

/// What the first `k` of the arguments `args` say about a listing of the
/// directory `path`, and the issues they raise.
///
/// An argument is a verb, a space and an object; one without a space says
/// nothing. `exclude_names` adds the patterns of its object, which are
/// separated by spaces that are not escaped, to those that are left out;
/// `include_only_names` adds them to those that are listed. Any other verb
/// raises an issue and says nothing.
pub open spec fn listing_of(ctx: Context, path: Seq<char>, args: Seq<Seq<char>>, k: nat) -> (
    Listing,
    Seq<IssueView>,
)
    decreases k,
{
    if k == 0 || k > args.len() {
        (
            Listing { path, exclude_by_name: Seq::empty(), include_only_by_name: None },
            Seq::empty(),
        )
    } else {
        let before = listing_of(ctx, path, args, (k - 1) as nat);
        let arg = args[k - 1];
        let sp = space_in(arg, 0);
        let verb = part(arg, 0, sp);
        let names = split_not_escaped(part(arg, sp + 1, arg.len() as int), ' ', ESCAPE);
        if sp >= arg.len() {
            before
        } else if verb == "exclude_names"@ {
            (
                Listing {
                    path,
                    exclude_by_name: before.0.exclude_by_name + names,
                    include_only_by_name: before.0.include_only_by_name,
                },
                before.1,
            )
        } else if verb == "include_only_names"@ {
            (
                Listing {
                    path,
                    exclude_by_name: before.0.exclude_by_name,
                    include_only_by_name: Some(
                        match before.0.include_only_by_name {
                            Some(v) => v + names,
                            None => names,
                        },
                    ),
                },
                before.1,
            )
        } else {
            (before.0, before.1.push(unknown_verb_issue(ctx, verb)))
        }
    }
}

/// What the text `text` says about a listing: it is cut at the colons that
/// are not escaped; the first piece is the path of the directory, the
/// others are arguments: see [`listing_of`].
pub open spec fn listing(ctx: Context, text: Seq<char>) -> (Listing, Seq<IssueView>) {
    let pieces = split_not_escaped(text, ':', ESCAPE);
    listing_of(ctx, pieces[0], pieces.skip(1), (pieces.len() - 1) as nat)
}

/// Whether an entry with the name `name` is listed: it matches one of the
/// patterns of the names that are listed, if not all are, and none of those
/// that are left out. An entry without a name is listed.
pub open spec fn is_listed(l: Listing, name: Option<Seq<char>>) -> bool {
    match name {
        None => true,
        Some(n) => {
            &&& match l.include_only_by_name {
                Some(v) => exists|i: int|
                    0 <= i < v.len() && crate::shell_util::matches(n, #[trigger] v[i]),
                None => true,
            }
            &&& forall|i: int|
                0 <= i < l.exclude_by_name.len() ==> !crate::shell_util::matches(
                    n,
                    #[trigger] l.exclude_by_name[i],
                )
        },
    }
}

/// The paths of the entries that are listed, where `entries` holds for
/// each entry its name and then its path, from position `k` on.
pub open spec fn listed_paths(l: Listing, entries: Seq<Seq<char>>, k: int) -> Seq<Seq<char>>
    decreases entries.len() - k,
{
    if k < 0 || k + 1 >= entries.len() {
        Seq::empty()
    } else if is_listed(l, Some(crate::tools::unescape_colons(entries[k]))) {
        seq![entries[k + 1]] + listed_paths(l, entries, k + 2)
    } else {
        listed_paths(l, entries, k + 2)
    }
}

/// The entries of what the host answered: the pieces between the colons
/// that are not escaped, every backslash kept. An empty answer has no
/// entries.
pub open spec fn answer_entries(text: Seq<char>) -> Seq<Seq<char>> {
    if text.len() == 0 {
        Seq::empty()
    } else {
        crate::escape::split_items(auto_escape(text, ESCAPE), ':').map_values(
            |p: Seq<(bool, char)>| unescape(p, Restore::All, ESCAPE),
        )
    }
}

/// What listing a directory gives: the expanded body says which directory
/// and which entries: see [`listing`]. The host is asked for `lsdir` and
/// the path of the directory; it answers with the name and the path of
/// each entry, all separated by colons, with a backslash before each colon
/// and each backslash in them. The text is the paths of the entries that
/// are listed, as the host gave them, with colons between them. An issue
/// for what went wrong on the side of the host names the directory.
pub open spec fn run_lsdir(cmds: Registry, vars: Store, ctx: Context) -> Outcome
    decreases ctx.body.len(), 19nat, 1nat,
{
    let r = run_eval(cmds, vars, ctx);
    let l = listing(ctx, r.text);
    let answer = ask_host(
        cmds,
        ctx,
        "lsdir "@ + l.0.path,
        "while trying to read the directory "@ + l.0.path,
    );
    Outcome {
        text: join_with(listed_paths(l.0, answer_entries(answer.0), 0), ':'),
        issues: r.issues + l.1 + answer.1,
        vars: r.vars,
    }
}

/// What expanding the body of a command gives to the command.
pub open spec fn run_eval(cmds: Registry, vars: Store, ctx: Context) -> Outcome
    decreases ctx.body.len(), 19nat, 0nat,
{
    expand_part(cmds, vars, ctx.body, ctx.body.len(), ctx.body_span.start as int)
}

/// What the handler that gets a variable gives: the value of the variable
/// that the expanded body names, as it stands. If there is no such
/// variable, it gives no text and raises an issue.
pub open spec fn run_get_var(cmds: Registry, vars: Store, ctx: Context) -> Outcome
    decreases ctx.body.len(), 19nat, 1nat,
{
    let r = run_eval(cmds, vars, ctx);
    if r.vars.contains_key(r.text) {
        Outcome { text: r.vars[r.text], issues: r.issues, vars: r.vars }
    } else {
        Outcome {
            text: Seq::empty(),
            issues: r.issues.push(invalid_args_issue(ctx, "unknown variable: "@ + r.text)),
            vars: r.vars,
        }
    }
}

/// What the handler that sets a variable gives: no text. The expanded body
/// is cut at each `=` that is not escaped; the first piece is the name,
/// the second the value, which is empty where there is none.
pub open spec fn run_set_var(cmds: Registry, vars: Store, ctx: Context) -> Outcome
    decreases ctx.body.len(), 19nat, 1nat,
{
    let r = run_eval(cmds, vars, ctx);
    let pieces = split_not_escaped(r.text, '=', ESCAPE);
    let value = if pieces.len() > 1 {
        pieces[1]
    } else {
        Seq::empty()
    };
    Outcome { text: Seq::empty(), issues: r.issues, vars: r.vars.insert(pieces[0], value) }
}

/// The first of `pieces` that is not empty; the empty text if all are.
pub open spec fn first_filled(pieces: Seq<Seq<char>>) -> Seq<char>
    decreases pieces.len(),
{
    if pieces.len() == 0 {
        Seq::empty()
    } else if pieces[0].len() > 0 {
        pieces[0]
    } else {
        first_filled(pieces.skip(1))
    }
}

/// What the handler of alternatives gives: the expanded body is cut at each
/// colon that is not escaped, and the first piece that is not empty is the
/// text. That all are empty is no issue.
pub open spec fn run_fallback(cmds: Registry, vars: Store, ctx: Context) -> Outcome
    decreases ctx.body.len(), 19nat, 1nat,
{
    let r = run_eval(cmds, vars, ctx);
    Outcome {
        text: first_filled(split_not_escaped(r.text, ':', ESCAPE)),
        issues: r.issues,
        vars: r.vars,
    }
}

/// Whether `word` asks for ascending order.
pub open spec fn is_ascending_word(word: Seq<char>) -> bool {
    word == "+"@ || word == "asc"@ || word == "ascending"@ || word == "inc"@ || word
        == "increasing"@
}

/// Whether `word` asks for descending order.
pub open spec fn is_descending_word(word: Seq<char>) -> bool {
    word == "-"@ || word == "desc"@ || word == "descending"@ || word == "dec"@ || word
        == "decreasing"@
}

/// The text `s` with a backslash before each colon.
pub open spec fn reescape_colons(s: Seq<char>) -> Seq<char>
    decreases s.len(),
{
    if s.len() == 0 {
        Seq::empty()
    } else if s.last() == ':' {
        reescape_colons(s.drop_last()).push(ESCAPE).push(':')
    } else {
        reescape_colons(s.drop_last()).push(s.last())
    }
}

/// The texts `items` as one list: a backslash before each colon of each,
/// and a colon between each two.
pub open spec fn join_reescape_colon(items: Seq<Seq<char>>) -> Seq<char> {
    join_with(items.map_values(|s: Seq<char>| reescape_colons(s)), ':')
}

/// The keys of the entries of a list, with the issues raised while they
/// were computed and the variables as they stand afterwards.
pub struct Keys {
    pub keys: Seq<Seq<char>>,
    pub issues: Seq<IssueView>,
    pub vars: Store,
}

/// The keys of the entries `items` from position `k` on: for each entry in
/// turn, the variable `name` gets the entry as its value, and the key is
/// what expanding `expr` then gives.
pub open spec fn sort_keys(
    cmds: Registry,
    vars: Store,
    expr: Seq<char>,
    limit: nat,
    shift: int,
    name: Seq<char>,
    items: Seq<Seq<char>>,
    k: int,
) -> Keys
    decreases limit, 15nat, items.len() - k,
{
    if k < 0 || k >= items.len() {
        Keys { keys: Seq::empty(), issues: Seq::empty(), vars }
    } else {
        let r = expand_part(cmds, vars.insert(name, items[k]), expr, limit, shift);
        let rest = sort_keys(cmds, r.vars, expr, limit, shift, name, items, k + 1);
        Keys { keys: seq![r.text] + rest.keys, issues: r.issues + rest.issues, vars: rest.vars }
    }
}

/// What the handler that sorts by a key gives.
///
/// The body is a configuration, a colon and a list. The configuration is a
/// variable name, an order and an expression, with one space between each
/// two; the expression is all that follows the second space. Colon and
/// spaces count only where they are not escaped and stand outside any
/// nested command. The expanded list is cut at the colons that are not
/// escaped; for each entry the variable gets the entry as its value and the
/// expression is expanded to give the key. The text is the list sorted by
/// key, entries with equal keys in the order in which they came. Afterwards
/// the variable is as it was before.
///
/// Where the configuration is not complete or the order is no order, the
/// text is the list as it stands, and an issue is raised.
pub open spec fn run_sort_by(cmds: Registry, vars: Store, ctx: Context) -> Outcome
    decreases ctx.body.len(), 19nat, 0nat,
{
    let b = ctx.body;
    let limit = b.len();
    let base = ctx.body_span.start as int;
    let colon = first_sep(b, ':', 0);
    let config = part(b, 0, colon);
    let unsorted = part(b, colon + 1, b.len() as int);
    let e0 = first_sep(config, ' ', 0);
    let name = part(config, 0, e0);
    let e1 = first_sep(config, ' ', e0 + 1);
    let order = part(config, e0 + 1, e1);
    let expr = part(config, e1 + 1, config.len() as int);
    if e0 >= config.len() {
        Outcome {
            text: unsorted,
            issues: seq![
                invalid_args_issue(ctx, "expected sorting order, got end of argument"@),
            ],
            vars,
        }
    } else if !is_ascending_word(order) && !is_descending_word(order) {
        Outcome {
            text: unsorted,
            issues: seq![invalid_args_issue(ctx, "invalid sorting order: "@ + order)],
            vars,
        }
    } else if e1 >= config.len() {
        Outcome {
            text: unsorted,
            issues: seq![invalid_args_issue(ctx, "no map expression provided"@)],
            vars,
        }
    } else if colon >= b.len() {
        Outcome {
            text: Seq::empty(),
            issues: seq![invalid_args_issue(ctx, "no list to sort provided"@)],
            vars,
        }
    } else {
        let list = expand_part(cmds, vars, unsorted, limit, base + byte_len(part(b, 0, colon + 1)));
        let items = list_items(list.text);
        let saved = lookup(list.vars, name);
        let keyed = sort_keys(
            cmds,
            list.vars.remove(name),
            expr,
            limit,
            base + byte_len(part(b, 0, e1 + 1)),
            name,
            items,
            0,
        );
        Outcome {
            text: join_reescape_colon(sorted_by_key(keyed.keys, items, is_descending_word(order))),
            issues: list.issues + keyed.issues,
            vars: restored(keyed.vars, name, saved),
        }
    }
}

/// The values that a loop takes.
pub enum LoopValues {
    /// Every integer from the first to the second, both included.
    Range(i128, i128),
    /// Every text of a list, in order.
    List(Seq<Seq<char>>),
    /// Every text of a list, sorted by a key: the list, the expression that
    /// gives the key of an entry, where that expression lies in the body of
    /// the command, and whether the order is descending.
    Sorted(Seq<Seq<char>>, Seq<char>, Span, bool),
}

/// What a loop is made of.
pub struct LoopPlan {
    /// The name of the loop variable.
    pub name: Seq<char>,
    /// The values that the loop variable takes.
    pub values: LoopValues,
    /// The text that is repeated.
    pub body: Seq<char>,
    /// Where that text lies in the body of the command.
    pub body_at: Span,
}

/// What reading the configuration of a loop gives: the loop, or the issue
/// that stopped the reading; with the issues raised while parts of the
/// configuration were expanded and the variables as they stand afterwards.
pub struct LoopParse {
    pub plan: Result<LoopPlan, IssueView>,
    pub issues: Seq<IssueView>,
    pub vars: Store,
}

/// The position of the first character of `s` at or after position `from`
/// that is not white space, or the length of `s` if there is none.
pub open spec fn skip_whitespace(s: Seq<char>, from: int) -> int
    decreases s.len() - from,
{
    if from < 0 || from >= s.len() {
        s.len() as int
    } else if is_whitespace(s[from]) {
        skip_whitespace(s, from + 1)
    } else {
        from
    }
}

/// The part of `s` from position `from` up to position `to`, or the empty
/// text where these are no positions of `s`.
pub open spec fn part(s: Seq<char>, from: int, to: int) -> Seq<char> {
    if 0 <= from <= to <= s.len() {
        s.subrange(from, to)
    } else {
        Seq::empty()
    }
}

/// What reading the values of a loop gives: the values, or the issue that
/// stopped the reading; with the issues raised while parts of the
/// configuration were expanded and the variables as they stand afterwards.
pub struct ValuesParse {
    pub values: Result<LoopValues, IssueView>,
    pub issues: Seq<IssueView>,
    pub vars: Store,
}

/// What reading a list gives, where `config` is the configuration of the
/// loop and the word `in` ends at position `e1` of it: the list is all that
/// follows, without the white space it starts with. It is expanded as a
/// whole and then cut at the colons that are not escaped. An empty list
/// has no entries.
pub open spec fn parse_list(cmds: Registry, vars: Store, ctx: Context, config: Seq<char>, e1: int) -> ValuesParse
    decreases ctx.body.len(), 17nat, 0nat,
{
    let at = skip_whitespace(config, e1 + 1);
    let list = expand_part(
        cmds,
        vars,
        part(config, at, config.len() as int),
        ctx.body.len(),
        ctx.body_span.start + byte_len(part(config, 0, at)),
    );
    ValuesParse {
        values: Ok(LoopValues::List(list_items(list.text))),
        issues: list.issues,
        vars: list.vars,
    }
}

/// What reading an integer gives: the integer, or the issue that tells
/// that what was read is none; with the issues raised while it was
/// expanded and the variables as they stand afterwards.
pub struct IntegerParse {
    pub value: Result<i128, IssueView>,
    pub issues: Seq<IssueView>,
    pub vars: Store,
}

/// What reading the integer gives that stands in the configuration
/// `config` from position `from` up to position `to`: the text there is
/// expanded and then read as a numeral. Where it is none, the issue says
/// `what` and the expanded text.
pub open spec fn parse_integer(
    cmds: Registry,
    vars: Store,
    ctx: Context,
    config: Seq<char>,
    from: int,
    to: int,
    what: Seq<char>,
) -> IntegerParse
    decreases ctx.body.len(), 16nat, 0nat,
{
    let r = expand_part(
        cmds,
        vars,
        part(config, from, to),
        ctx.body.len(),
        ctx.body_span.start + byte_len(part(config, 0, from)),
    );
    IntegerParse {
        value: match parsed_i128(r.text) {
            Some(v) => Ok(v),
            None => Err(invalid_args_issue(ctx, what + r.text)),
        },
        issues: r.issues,
        vars: r.vars,
    }
}

/// What reading a range gives, where `config` is the configuration of the
/// loop and the word `from` ends at position `e1` of it: three words
/// follow, an integer, `to`, and an integer. Each integer is expanded on
/// its own before it is read.
pub open spec fn parse_range(cmds: Registry, vars: Store, ctx: Context, config: Seq<char>, e1: int) -> ValuesParse
    decreases ctx.body.len(), 17nat, 0nat,
{
    let e2 = first_sep(config, ' ', e1 + 1);
    let e3 = first_sep(config, ' ', e2 + 1);
    let e4 = first_sep(config, ' ', e3 + 1);
    let first = parse_integer(cmds, vars, ctx, config, e1 + 1, e2, "invalid starting integer: "@);
    let last = parse_integer(
        cmds,
        first.vars,
        ctx,
        config,
        e3 + 1,
        e4,
        "invalid ending integer: "@,
    );
    if e1 >= config.len() {
        ValuesParse {
            values: Err(invalid_args_issue(ctx, "no starting integer given"@)),
            issues: Seq::empty(),
            vars,
        }
    } else if first.value is Err {
        ValuesParse { values: Err(first.value->Err_0), issues: first.issues, vars: first.vars }
    } else if e2 >= config.len() {
        ValuesParse {
            values: Err(invalid_args_issue(ctx, "no range end given"@)),
            issues: first.issues,
            vars: first.vars,
        }
    } else if part(config, e2 + 1, e3) != "to"@ {
        ValuesParse {
            values: Err(
                invalid_args_issue(ctx, "invalid range end: "@ + part(config, e2 + 1, e3)),
            ),
            issues: first.issues,
            vars: first.vars,
        }
    } else if e3 >= config.len() {
        ValuesParse {
            values: Err(invalid_args_issue(ctx, "no ending integer given"@)),
            issues: first.issues,
            vars: first.vars,
        }
    } else if last.value is Err {
        ValuesParse {
            values: Err(last.value->Err_0),
            issues: first.issues + last.issues,
            vars: last.vars,
        }
    } else {
        ValuesParse {
            values: Ok(LoopValues::Range(first.value->Ok_0, last.value->Ok_0)),
            issues: first.issues + last.issues,
            vars: last.vars,
        }
    }
}

/// The position of the `)` that closes a group of `s`, looked for from
/// position `i` on, or the length of `s` if there is none. Every `(` opens
/// a group of its own, which its own `)` closes. The reader is `lvl` such
/// groups deep, and `esc` says whether the character at `i` is escaped.
pub open spec fn paren_from(s: Seq<char>, i: int, lvl: nat, esc: bool) -> int
    decreases s.len() - i,
{
    if i < 0 || i >= s.len() {
        s.len() as int
    } else if esc {
        paren_from(s, i + 1, lvl, false)
    } else if s[i] == ESCAPE {
        paren_from(s, i + 1, lvl, true)
    } else if s[i] == '(' {
        paren_from(s, i + 1, lvl + 1, false)
    } else if s[i] == ')' {
        if lvl == 0 {
            i
        } else {
            paren_from(s, i + 1, (lvl - 1) as nat, false)
        }
    } else {
        paren_from(s, i + 1, lvl, false)
    }
}

/// The issue for an order that is no order.
pub open spec fn unknown_order_issue(ctx: Context, order: Seq<char>) -> IssueView {
    IssueView {
        id: "command:invalid_args:partial"@,
        msg: "unknown sorting order: "@ + order,
        span: ctx.cmd_span,
    }
}

/// The entries of the list with the text `text`: the pieces between the
/// colons that are not escaped. An empty list has no entries.
pub open spec fn list_items(text: Seq<char>) -> Seq<Seq<char>> {
    if text.len() == 0 {
        Seq::empty()
    } else {
        split_not_escaped(text, ':', ESCAPE)
    }
}

/// What reading a sorted list gives, where `config` is the configuration
/// of the loop and `in.sorted(` ends at position `from` of it: up to the
/// `)` that closes the group stand the expression that gives the key and,
/// behind a colon, the order, which is ascending where none is given;
/// behind the `)` stands the list, which is expanded as a whole.
pub open spec fn parse_sorted(
    cmds: Registry,
    vars: Store,
    ctx: Context,
    config: Seq<char>,
    from: int,
) -> ValuesParse
    decreases ctx.body.len(), 17nat, 0nat,
{
    let close = paren_from(config, from, 0, false);
    let inside = part(config, from, close);
    let colon = first_sep(inside, ':', 0);
    let key = part(inside, 0, colon);
    let order = part(inside, colon + 1, inside.len() as int);
    let behind = if close < config.len() {
        close + 1
    } else {
        config.len() as int
    };
    let list = expand_part(
        cmds,
        vars,
        part(config, behind, config.len() as int),
        ctx.body.len(),
        ctx.body_span.start + byte_len(part(config, 0, behind)),
    );
    if colon < inside.len() && !is_ascending_word(order) && !is_descending_word(order) {
        ValuesParse { values: Err(unknown_order_issue(ctx, order)), issues: Seq::empty(), vars }
    } else {
        ValuesParse {
            values: Ok(
                LoopValues::Sorted(
                    list_items(list.text),
                    key,
                    Span {
                        start: byte_len(part(config, 0, from)) as usize,
                        len: byte_len(key) as usize,
                    },
                    colon < inside.len() && is_descending_word(order),
                ),
            ),
            issues: list.issues,
            vars: list.vars,
        }
    }
}

/// The configuration of the loop whose body is `b`: what stands before the
/// first semicolon that is not escaped and stands outside any nested
/// command.
pub open spec fn loop_config(b: Seq<char>) -> Seq<char> {
    part(b, 0, first_sep(b, ';', 0))
}

/// The text that the loop whose body is `b` repeats: what follows the
/// semicolon that ends the configuration.
pub open spec fn loop_body(b: Seq<char>) -> Seq<char> {
    part(b, first_sep(b, ';', 0) + 1, b.len() as int)
}

/// Where the text that the loop whose body is `b` repeats lies in `b`.
pub open spec fn loop_body_at(b: Seq<char>) -> Span {
    Span {
        start: byte_len(part(b, 0, b.len() - loop_body(b).len())) as usize,
        len: byte_len(loop_body(b)) as usize,
    }
}

/// What reading the configuration of a loop gives.
///
/// The body of the command is the configuration, a semicolon, and the text
/// to repeat. The configuration is made of words with one space between
/// each two: the name of the loop variable, then either `from`, an integer,
/// `to` and an integer, or `in` and a list, or `in.sorted(`, an expression,
/// a colon, an order, `)` and a list. Semicolon and spaces count only
/// where they are not escaped and stand outside any nested command.
pub open spec fn for_parse(cmds: Registry, vars: Store, ctx: Context) -> LoopParse
    decreases ctx.body.len(), 18nat, 0nat,
{
    let config = loop_config(ctx.body);
    let e0 = first_sep(config, ' ', 0);
    let name = part(config, 0, e0);
    let e1 = first_sep(config, ' ', e0 + 1);
    let kind = part(config, e0 + 1, e1);
    let v = if e0 >= config.len() {
        ValuesParse {
            values: Err(missing_args_issue(ctx, "no repeat kind given"@)),
            issues: Seq::empty(),
            vars,
        }
    } else if kind == "in"@ {
        parse_list(cmds, vars, ctx, config, e1)
    } else if part(config, e0 + 1, e0 + 11) == "in.sorted("@ {
        parse_sorted(cmds, vars, ctx, config, e0 + 11)
    } else if kind == "from"@ {
        parse_range(cmds, vars, ctx, config, e1)
    } else {
        ValuesParse {
            values: Err(invalid_args_issue(ctx, "unknown repeat kind: "@ + kind)),
            issues: Seq::empty(),
            vars,
        }
    };
    LoopParse {
        plan: match v.values {
            Ok(values) => Ok(
                LoopPlan {
                    name,
                    values,
                    body: loop_body(ctx.body),
                    body_at: loop_body_at(ctx.body),
                },
            ),
            Err(e) => Err(e),
        },
        issues: v.issues,
        vars: v.vars,
    }
}

/// What repeating `body` for every integer from `from` to `to` gives: for
/// each in turn, the variable `name` gets its numeral as its value, and
/// `body` is expanded. Nothing if `from` is greater than `to`.
pub open spec fn for_range(
    cmds: Registry,
    vars: Store,
    body: Seq<char>,
    limit: nat,
    shift: int,
    name: Seq<char>,
    from: int,
    to: int,
) -> Outcome
    decreases limit, 15nat, to - from + 1,
{
    if from > to {
        silent(vars)
    } else {
        let r = expand_part(cmds, vars.insert(name, decimal(from)), body, limit, shift);
        let rest = for_range(cmds, r.vars, body, limit, shift, name, from + 1, to);
        Outcome { text: r.text + rest.text, issues: r.issues + rest.issues, vars: rest.vars }
    }
}

/// What repeating `body` for every text of `items` from position `k` on
/// gives: for each in turn, the variable `name` gets the text as its value,
/// and `body` is expanded.
pub open spec fn for_list(
    cmds: Registry,
    vars: Store,
    body: Seq<char>,
    limit: nat,
    shift: int,
    name: Seq<char>,
    items: Seq<Seq<char>>,
    k: int,
) -> Outcome
    decreases limit, 15nat, items.len() - k,
{
    if k < 0 || k >= items.len() {
        silent(vars)
    } else {
        let r = expand_part(cmds, vars.insert(name, items[k]), body, limit, shift);
        let rest = for_list(cmds, r.vars, body, limit, shift, name, items, k + 1);
        Outcome { text: r.text + rest.text, issues: r.issues + rest.issues, vars: rest.vars }
    }
}

/// What running a loop over its values gives, once the loop variable has
/// been put aside: a list that is to be sorted is sorted first, by the keys
/// that its expression gives for the entries.
pub open spec fn for_values(
    cmds: Registry,
    vars: Store,
    ctx: Context,
    plan: LoopPlan,
) -> Outcome
    decreases ctx.body.len(), 16nat, 0nat,
{
    let limit = ctx.body.len();
    let shift = ctx.body_span.start + plan.body_at.start;
    match plan.values {
        LoopValues::Range(a, b) => for_range(
            cmds,
            vars,
            plan.body,
            limit,
            shift,
            plan.name,
            a as int,
            b as int,
        ),
        LoopValues::List(items) => for_list(
            cmds,
            vars,
            plan.body,
            limit,
            shift,
            plan.name,
            items,
            0,
        ),
        LoopValues::Sorted(items, key, key_at, descending) => {
            let keyed = sort_keys(
                cmds,
                vars,
                key,
                limit,
                ctx.body_span.start + key_at.start,
                plan.name,
                items,
                0,
            );
            let run = for_list(
                cmds,
                keyed.vars,
                plan.body,
                limit,
                shift,
                plan.name,
                sorted_by_key(keyed.keys, items, descending),
                0,
            );
            Outcome { text: run.text, issues: keyed.issues + run.issues, vars: run.vars }
        },
    }
}

/// What the loop gives.
///
/// The configuration is read. If that fails, the loop gives no text and
/// raises the issue. Else the value of the loop variable is saved, the text
/// is repeated for every value, the results are put together, and the loop
/// variable gets its saved value back, or is removed if it had none.
pub open spec fn run_for(cmds: Registry, vars: Store, ctx: Context) -> Outcome
    decreases ctx.body.len(), 19nat, 0nat,
{
    let p = for_parse(cmds, vars, ctx);
    match p.plan {
        Err(e) => Outcome { text: Seq::empty(), issues: p.issues.push(e), vars: p.vars },
        Ok(plan) => {
            let run = for_values(cmds, p.vars.remove(plan.name), ctx, plan);
            Outcome {
                text: run.text,
                issues: p.issues + run.issues,
                vars: restored(run.vars, plan.name, lookup(p.vars, plan.name)),
            }
        },
    }
}

} // verus!
