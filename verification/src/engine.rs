//! The engine: the variables, the commands, and the expansion of a text.

use std::path::PathBuf;
use vstd::hash_map::StringHashMap;
use vstd::prelude::*;
use vstd::string::{StrSliceExecFns, StringExecFns};
use crate::escape::{escape_pairs, is_command_char, unescape_pairs, Restore};
use crate::host::HostAnswers;
use crate::issue::{absorb_new_issues, all_within, shifted_all, views, Issue, IssueView};
use crate::model::{
    command_body, command_name, command_span, expand, expand_segments, invalid_args_issue,
    missing_args_issue, moved, preview, run_command, run_handler, unknown_command_issue,
    CommandHandler, Context, Handlers, Outcome, Registry,
};
use crate::parser::{
    find_name_end, lemma_name_end_bounds, lemma_structural_issues_within, name_end, push_literal,
    push_structural_issues, scan_segments, segment_fits, segments, structural_issues, ESCAPE,
    Segment, SegmentKind,
};
use crate::span::{RowCol, Span};
use crate::text::{
    byte_len, byte_offsets, char_is_whitespace, chars_of, lemma_byte_len_subrange, slice_of,
    string_of,
};
use crate::vars::VarTable;

verus! {

/// `std::path::PathBuf`: an owned path in a file system. The engine only
/// keeps it for the commands that read files.
#[verifier::external_type_specification]
#[verifier::external_body]
pub struct ExPathBuf(PathBuf);

/// The main type: the variables, the commands, and the root path.
pub struct Engine {
    /// The variables stored in the engine.
    pub vars: VarTable,
    /// The path that relative paths are relative to, where one is set.
    pub root_path: Option<PathBuf>,
    /// The handlers of the commands, by name.
    pub commands: StringHashMap<CommandHandler>,
    /// What the host has answered so far, by request.
    pub answers: HostAnswers,
}

/// The name of a command that is not valid: it holds white space or one of
/// the characters `%(){}`.
#[derive(Debug, Clone, PartialEq, Eq)]
pub struct InvalidCommandName(pub String);

/// What a command is called with: its body and where it stands.
#[derive(Debug)]
pub struct CommandConfig {
    /// The body of the command.
    pub body: String,
    /// The span of the command body.
    pub body_span: Span,
    /// The span of the whole command (including percent-parentheses).
    pub cmd_span: Span,
}

impl View for CommandConfig {
    type V = Context;

    open spec fn view(&self) -> Context {
        Context { body: self.body@, body_span: self.body_span, cmd_span: self.cmd_span }
    }
}

/// Whether a call changed an engine and a list of issues as `o` says and
/// gave the text of `o`: the issues of `o` were appended, the variables are
/// those of `o`, and commands and root path are as before. The region of
/// every issue of `o` ends within the first `bound` bytes.
pub open spec fn took_effect(
    before: Engine,
    issues_before: Seq<Issue>,
    after: Engine,
    issues_after: Seq<Issue>,
    text: Seq<char>,
    o: Outcome,
    bound: int,
) -> bool {
    &&& text == o.text
    &&& views(issues_after) == views(issues_before) + o.issues
    &&& after.vars@ == o.vars
    &&& after.commands() == before.commands()
    &&& after.root_path() == before.root_path()
    &&& all_within(o.issues, bound)
}

/// Moving issues that lie within `total` bytes by `shift` gives issues that
/// lie within `shift + total` bytes.
pub proof fn lemma_shifted_within(vs: Seq<IssueView>, shift: int, total: int)
    requires
        all_within(vs, total),
        0 <= shift,
        shift + total <= usize::MAX,
    ensures
        all_within(shifted_all(vs, shift), shift + total),
{
    assert forall|i: int| 0 <= i < shifted_all(vs, shift).len() implies (#[trigger] shifted_all(
        vs,
        shift,
    )[i]).span.within(shift + total) by {
        assert(vs[i].span.within(total));
    }
}

/// Issues that lie within `a` bytes lie within any `b` that is no less.
pub proof fn lemma_within_weaken(vs: Seq<IssueView>, a: int, b: int)
    requires
        all_within(vs, a),
        a <= b,
    ensures
        all_within(vs, b),
{
    assert forall|i: int| 0 <= i < vs.len() implies (#[trigger] vs[i]).span.within(b) by {
        assert(vs[i].span.within(a));
    }
}

/// Two lists of issues that lie within `total` bytes do so together.
pub proof fn lemma_within_concat(a: Seq<IssueView>, b: Seq<IssueView>, total: int)
    requires
        all_within(a, total),
        all_within(b, total),
    ensures
        all_within(a + b, total),
{
    assert forall|i: int| 0 <= i < (a + b).len() implies (#[trigger] (a + b)[i]).span.within(
        total,
    ) by {
        if i < a.len() {
            assert(a[i].span.within(total));
        } else {
            assert(b[i - a.len()].span.within(total));
        }
    }
}

impl CommandConfig {
    /// Whether the spans fit each other and the body: the span of the body
    /// lies within the span of the command, and the body is no longer than
    /// its span.
    pub open spec fn wf(&self) -> bool {
        crate::within::fits(self@)
    }

    /// Creates an issue with id `"command:missing_args"` and span
    /// `self.cmd_span`.
    pub fn missing_args(&self, msg: &str) -> (r: Issue)
        ensures
            r@ == missing_args_issue(self@, msg@),
    {
        Issue { id: "command:missing_args", msg: msg.to_string(), span: self.cmd_span }
    }

    /// Creates an issue with id `"command:invalid_args"` and span
    /// `self.body_span`.
    pub fn invalid_args(&self, msg: String) -> (r: Issue)
        ensures
            r@ == invalid_args_issue(self@, msg@),
    {
        Issue { id: "command:invalid_args", msg, span: self.body_span }
    }

    /// Pushes an issue with id `"command:missing_args"` and span
    /// `self.cmd_span` onto `issues`.
    pub fn push_missing_args(&self, issues: &mut Vec<Issue>, msg: &str)
        ensures
            views(final(issues)@) == views(old(issues)@).push(missing_args_issue(self@, msg@)),
    {
        let issue = self.missing_args(msg);
        proof {
            assert(views(issues@.push(issue)) =~= views(issues@).push(issue@));
        }
        issues.push(issue);
    }

    /// Pushes an issue with id `"command:invalid_args"` and span
    /// `self.body_span` onto `issues`.
    pub fn push_invalid_args(&self, issues: &mut Vec<Issue>, msg: String)
        ensures
            views(final(issues)@) == views(old(issues)@).push(invalid_args_issue(self@, msg@)),
    {
        let issue = self.invalid_args(msg);
        proof {
            assert(views(issues@.push(issue)) =~= views(issues@).push(issue@));
        }
        issues.push(issue);
    }

    /// Expands `s` with `engine`. The issues raised are pushed onto
    /// `issues`, their regions moved to where the body of the command
    /// starts.
    ///
    /// `s` may be any text whose issues, moved so, stay within the span of
    /// the body. A text that takes no more bytes than that span has is
    /// such a text: see
    /// [`law_issues_lie_within_the_source`](crate::within::law_issues_lie_within_the_source).
    pub fn process(&self, engine: &mut Engine, issues: &mut Vec<Issue>, s: String) -> (out: String)
        requires
            self.body_span.end_pos() <= usize::MAX,
            all_within(
                expand(old(engine).commands(), old(engine).vars@, s@).issues,
                self.body_span.len as int,
            ),
        ensures
            took_effect(
                *old(engine),
                old(issues)@,
                *final(engine),
                final(issues)@,
                out@,
                moved(
                    expand(old(engine).commands(), old(engine).vars@, s@),
                    self.body_span.start as int,
                ),
                self.body_span.end_pos(),
            ),
        decreases s@.len(), 11nat, 0nat,
    {
        let ghost o = expand(engine.commands(), engine.vars@, s@);
        let (out, new_issues) = engine.process_new(s);
        proof {
            assert(views(new_issues@) =~= o.issues);
            lemma_shifted_within(
                o.issues,
                self.body_span.start as int,
                self.body_span.len as int,
            );
        }
        absorb_new_issues(issues, self.body_span, new_issues);
        out
    }

    /// Expands the body with `engine`. The body is replaced by its expanded
    /// form, which is what is given back too.
    pub fn process_body(&mut self, engine: &mut Engine, issues: &mut Vec<Issue>) -> (out: String)
        requires
            old(self).wf(),
        ensures
            final(self).body@ == out@,
            final(self).body_span == old(self).body_span,
            final(self).cmd_span == old(self).cmd_span,
            took_effect(
                *old(engine),
                old(issues)@,
                *final(engine),
                final(issues)@,
                out@,
                moved(
                    expand(old(engine).commands(), old(engine).vars@, old(self).body@),
                    old(self).body_span.start as int,
                ),
                old(self).body_span.end_pos(),
            ),
        decreases old(self).body@.len(), 11nat, 1nat,
    {
        let mut body = String::new();
        std::mem::swap(&mut self.body, &mut body);
        proof {
            let o = expand(engine.commands(), engine.vars@, body@);
            crate::within::law_issues_lie_within_the_source(
                engine.commands(),
                engine.vars@,
                body@,
            );
            lemma_within_weaken(o.issues, byte_len(body@) as int, self.body_span.len as int);
        }
        let out = self.process(engine, issues, body);
        self.body = out.clone();
        out
    }

    /// Expands `subbody`, a part of the body, with `engine`. `subspan` says
    /// where the part lies in the body, so that the regions of the issues
    /// raised become regions of the source text of the command.
    ///
    /// Returns `None`, and pushes no issue, if `subspan` does not lie
    /// within the span of the body.
    pub fn process_subbody(
        &self,
        engine: &mut Engine,
        issues: &mut Vec<Issue>,
        subbody: String,
        subspan: Span,
    ) -> (out: Option<String>)
        requires
            self.body_span.end_pos() <= usize::MAX,
            byte_len(subbody@) <= subspan.len,
        ensures
            out is Some <==> subspan.end_pos() <= self.body_span.len,
            out is Some ==> took_effect(
                *old(engine),
                old(issues)@,
                *final(engine),
                final(issues)@,
                out->0@,
                moved(
                    expand(old(engine).commands(), old(engine).vars@, subbody@),
                    self.body_span.start + subspan.start,
                ),
                self.body_span.start + subspan.end_pos(),
            ),
            out is None ==> took_effect(
                *old(engine),
                old(issues)@,
                *final(engine),
                final(issues)@,
                Seq::empty(),
                Outcome {
                    text: Seq::empty(),
                    issues: Seq::empty(),
                    vars: expand(old(engine).commands(), old(engine).vars@, subbody@).vars,
                },
                0,
            ),
        decreases subbody@.len(), 11nat, 0nat,
    {
        let ghost o = expand(engine.commands(), engine.vars@, subbody@);
        let ghost total = byte_len(subbody@) as int;
        let (out, new_issues) = engine.process_new(subbody);
        match subspan.relative_to(&self.body_span) {
            Some(span) => {
                proof {
                    lemma_within_weaken(o.issues, total, span.len as int);
                    lemma_shifted_within(o.issues, span.start as int, span.len as int);
                }
                absorb_new_issues(issues, span, new_issues);
                Some(out)
            },
            None => {
                proof {
                    assert(views(issues@) + Seq::<IssueView>::empty() =~= views(issues@));
                }
                None
            },
        }
    }
}

impl CommandConfig {
    /// Expands the part of the body from position `from` up to position
    /// `to` with `engine`, where `b` holds the characters of the body and
    /// `offsets` the byte offset of every position of `b`. The regions of
    /// the issues raised are moved to where the part stands in the source
    /// text of the command.
    pub fn process_part(
        &self,
        engine: &mut Engine,
        issues: &mut Vec<Issue>,
        b: &Vec<char>,
        offsets: &Vec<usize>,
        from: usize,
        to: usize,
    ) -> (out: String)
        requires
            self.body_span.end_pos() <= usize::MAX,
            byte_len(b@) <= self.body_span.len,
            from <= to <= b@.len(),
            offsets@.len() == b@.len() + 1,
            forall|j: int| 0 <= j <= b@.len() ==> #[trigger] offsets@[j] == byte_len(b@.take(j)),
        ensures
            took_effect(
                *old(engine),
                old(issues)@,
                *final(engine),
                final(issues)@,
                out@,
                crate::model::expand_part(
                    old(engine).commands(),
                    old(engine).vars@,
                    b@.subrange(from as int, to as int),
                    b@.len(),
                    self.body_span.start + byte_len(b@.take(from as int)),
                ),
                self.body_span.end_pos(),
            ),
        decreases to - from, 12nat, 0nat,
    {
        let text = string_of(&slice_of(b, from, to));
        proof {
            lemma_byte_len_subrange(b@, from as int, to as int);
            lemma_byte_len_subrange(b@, to as int, b@.len() as int);
        }
        let span = Span { start: offsets[from], len: offsets[to] - offsets[from] };
        let ghost o = moved(
            expand(engine.commands(), engine.vars@, text@),
            self.body_span.start + span.start,
        );
        let out = self.process_subbody(engine, issues, text, span);
        proof {
            lemma_within_weaken(
                o.issues,
                self.body_span.start + span.end_pos(),
                self.body_span.end_pos(),
            );
        }
        out.unwrap()
    }
}

/// The parts of a command, as they are found in the source text.
pub struct CommandParts {
    /// The name of the command.
    pub name: String,
    /// The name as it stands in the source text, backslashes included.
    pub head: String,
    /// The body of the command, as it stands in the source text.
    pub body: String,
    /// Where `head` lies in the source text.
    pub name_span: Span,
    /// Where the body lies in the source text.
    pub body_span: Span,
    /// Where the whole command lies in the source text, delimiters
    /// included.
    pub cmd_span: Span,
}

impl CommandParts {
    /// Finds the parts of the command of the segment `seg` of `src`: the
    /// name ends at the first white space that is not escaped, and the body
    /// is what follows that white space. `offsets` holds the byte offset of
    /// every character position of `src`.
    pub fn of(src: &Vec<char>, offsets: &Vec<usize>, seg: Segment) -> (r: Self)
        requires
            byte_len(src@) <= usize::MAX,
            segment_fits(seg, src@.len() as int),
            seg.kind == SegmentKind::Command || seg.kind == SegmentKind::OpenCommand,
            offsets@.len() == src@.len() + 1,
            forall|j: int| 0 <= j <= src@.len() ==> #[trigger] offsets@[j] == byte_len(src@.take(j)),
        ensures
            ({
                let t = src@.subrange(seg.start as int, seg.end as int);
                &&& r.name@ == command_name(t)
                &&& r.head@ == t.take(name_end(t, 0))
                &&& r.body@ == command_body(t)
                &&& r.name_span == crate::model::name_span(src@, seg)
                &&& r.body_span == crate::model::body_span(src@, seg)
                &&& r.cmd_span == command_span(src@, seg)
                &&& r.cmd_span.start <= r.name_span.start
                &&& r.name_span.end_pos() <= r.body_span.start
                &&& r.body_span.end_pos() <= r.cmd_span.end_pos() <= byte_len(src@)
                &&& r.name_span.len == byte_len(r.head@)
                &&& r.body_span.len == byte_len(r.body@)
                &&& r.head@.len() < src@.len()
                &&& r.body@.len() < src@.len()
            }),
    {
        let ghost t = src@.subrange(seg.start as int, seg.end as int);
        let n = src.len();
        let end = find_name_end(src, seg.start, seg.end);
        let ghost h = name_end(t, 0);
        let raw_name = slice_of(src, seg.start, end);
        let name = unescape_pairs(
            &escape_pairs(&raw_name, ESCAPE),
            Restore::AllExceptCommandChars,
            ESCAPE,
        );
        let body_from = if end < seg.end {
            end + 1
        } else {
            seg.end
        };
        let body = slice_of(src, body_from, seg.end);
        let close = if seg.kind == SegmentKind::Command {
            seg.end + 2
        } else {
            seg.end
        };
        proof {
            lemma_byte_len_subrange(src@, seg.start - 2, close as int);
            lemma_byte_len_subrange(src@, close as int, src@.len() as int);
            lemma_byte_len_subrange(src@, seg.start as int, end as int);
            lemma_byte_len_subrange(src@, body_from as int, seg.end as int);
            lemma_byte_len_subrange(src@, seg.end as int, close as int);
            lemma_byte_len_subrange(src@, seg.start - 2, seg.start as int);
            lemma_byte_len_subrange(src@, end as int, body_from as int);
            assert(raw_name@ =~= t.take(h));
            assert(body@ =~= command_body(t));
            assert(src@.subrange(seg.start as int, end as int) =~= t.take(h));
        }
        CommandParts {
            name: string_of(&name),
            head: string_of(&raw_name),
            body: string_of(&body),
            name_span: Span { start: offsets[seg.start], len: offsets[end] - offsets[seg.start] },
            body_span: Span {
                start: offsets[body_from],
                len: offsets[seg.end] - offsets[body_from],
            },
            cmd_span: Span {
                start: offsets[seg.start - 2],
                len: offsets[close] - offsets[seg.start - 2],
            },
        }
    }
}

/// The issue for the command of the segment `seg` of `src`, whose name no
/// handler is known for. `cmd_span` is where the command lies in `src`.
pub fn unknown_command(src: &Vec<char>, seg: Segment, cmd_span: Span) -> (issue: Issue)
    requires
        segment_fits(seg, src@.len() as int),
        seg.kind == SegmentKind::Command || seg.kind == SegmentKind::OpenCommand,
        cmd_span == command_span(src@, seg),
    ensures
        issue@ == unknown_command_issue(src@, seg),
{
    let mut msg = String::from_str("invalid or unknown command at ");
    msg.append(RowCol::at_position(src, seg.start - 2).to_string().as_str());
    msg.append(" (starting with `(%");
    let shown = if seg.end - seg.start < 10 {
        slice_of(src, seg.start, seg.end)
    } else {
        slice_of(src, seg.start, seg.start + 10)
    };
    proof {
        assert(shown@ =~= preview(src@.subrange(seg.start as int, seg.end as int)));
    }
    msg.append(string_of(&shown).as_str());
    msg.append("`)");
    Issue { id: "command:unknown", msg, span: cmd_span }
}

impl Engine {
    /// The commands that the engine knows: the handler of each, by name.
    pub open spec fn commands(&self) -> Registry {
        Registry { handlers: self.commands@, answers: self.answers@ }
    }

    /// The path that relative paths are relative to, where one is set.
    pub open spec fn root_path(&self) -> Option<PathBuf> {
        self.root_path
    }

    /// Creates a new engine which knows the given variables, but no
    /// commands.
    pub fn new(vars: VarTable) -> (r: Self)
        ensures
            r.vars@ == vars@,
            r.commands() == (Registry { handlers: Map::empty(), answers: Map::empty() }),
            r.root_path() is None,
    {
        Self {
            vars,
            root_path: None,
            commands: StringHashMap::new(),
            answers: HostAnswers::new(),
        }
    }

    /// Gives the engine the answers `answers` of the host in place of those
    /// it has.
    pub fn with_answers(self, answers: HostAnswers) -> (r: Self)
        ensures
            r.vars@ == self.vars@,
            r.commands() == (Registry { handlers: self.commands().handlers, answers: answers@ }),
            r.root_path() == self.root_path(),
    {
        let mut r = self;
        r.answers = answers;
        r
    }

    /// Sets the root path (the path all relative paths are relative to).
    pub fn with_root_path(self, path: PathBuf) -> (r: Self)
        ensures
            r.vars@ == self.vars@,
            r.commands() == self.commands(),
            r.root_path() == Some(path),
    {
        let mut r = self;
        r.root_path = Some(path);
        r
    }

    /// Unsets the root path (the path all relative paths are relative to).
    pub fn without_root_path(self) -> (r: Self)
        ensures
            r.vars@ == self.vars@,
            r.commands() == self.commands(),
            r.root_path() is None,
    {
        let mut r = self;
        r.root_path = None;
        r
    }

    /// Tests if a character may not appear inside a command name. Invalid
    /// characters are white space and any of `%(){}`.
    pub fn is_invalid_command_char(c: char) -> (r: bool)
        ensures
            r == is_command_char(c),
    {
        char_is_whitespace(c) || c == '%' || c == '(' || c == ')' || c == '{' || c == '}'
    }

    /// Whether a command may have the name `name`: whether no character of
    /// it is invalid.
    pub open spec fn valid_name(name: Seq<char>) -> bool {
        forall|i: int| 0 <= i < name.len() ==> !is_command_char(#[trigger] name[i])
    }

    /// Tests if a command name is valid.
    pub fn is_valid_command_name(s: &str) -> (r: bool)
        ensures
            r == Self::valid_name(s@),
    {
        let v = chars_of(s);
        let mut i: usize = 0;
        while i < v.len()
            invariant
                i <= v.len(),
                v@ == s@,
                forall|j: int| 0 <= j < i ==> !is_command_char(#[trigger] v@[j]),
            decreases v.len() - i,
        {
            if Self::is_invalid_command_char(v[i]) {
                return false;
            }
            i += 1;
        }
        true
    }

    /// Adds a command to the engine's knowledge. Returns the handler that
    /// was known under the name before, if there was one. A name that is
    /// not valid is given back as the error.
    pub fn add_command(&mut self, cmd: &str, handler: CommandHandler) -> (r: Result<
        Option<CommandHandler>,
        InvalidCommandName,
    >)
        ensures
            final(self).vars@ == old(self).vars@,
            final(self).root_path() == old(self).root_path(),
            match r {
                Ok(previous) => Self::valid_name(cmd@) && final(self).commands() == (Registry {
                    handlers: old(self).commands().handlers.insert(cmd@, handler),
                    answers: old(self).commands().answers,
                }) && previous == if old(self).commands().handlers.contains_key(cmd@) {
                    Some(old(self).commands().handlers[cmd@])
                } else {
                    None
                },
                Err(e) => !Self::valid_name(cmd@) && e.0@ == cmd@ && final(self).commands()
                    == old(self).commands(),
            },
    {
        if Self::is_valid_command_name(cmd) {
            let previous = match self.commands.get(cmd) {
                Some(h) => Some(*h),
                None => None,
            };
            self.commands.insert(cmd.to_string(), handler);
            Ok(previous)
        } else {
            Err(InvalidCommandName(cmd.to_string()))
        }
    }

    /// The commands `reg` after each command of `cmds` whose name is valid
    /// was added, in order: a later command takes the place of an earlier
    /// one of the same name.
    pub open spec fn with_commands(
        reg: Handlers,
        cmds: Seq<(Seq<char>, CommandHandler)>,
    ) -> Handlers
        decreases cmds.len(),
    {
        if cmds.len() == 0 {
            reg
        } else {
            let before = Self::with_commands(reg, cmds.drop_last());
            if Self::valid_name(cmds.last().0) {
                before.insert(cmds.last().0, cmds.last().1)
            } else {
                before
            }
        }
    }

    /// The names of `cmds` that are not valid, in order.
    pub open spec fn invalid_names(cmds: Seq<(Seq<char>, CommandHandler)>) -> Seq<Seq<char>>
        decreases cmds.len(),
    {
        if cmds.len() == 0 {
            Seq::empty()
        } else {
            let before = Self::invalid_names(cmds.drop_last());
            if Self::valid_name(cmds.last().0) {
                before
            } else {
                before.push(cmds.last().0)
            }
        }
    }

    /// Adds multiple commands to the engine's knowledge, in order. Every
    /// command with a valid name is added; the names that are not valid are
    /// given back as the error.
    pub fn add_commands(&mut self, cmds: Vec<(String, CommandHandler)>) -> (r: Result<
        (),
        Vec<InvalidCommandName>,
    >)
        ensures
            final(self).vars@ == old(self).vars@,
            final(self).root_path() == old(self).root_path(),
            final(self).commands() == (Registry {
                handlers: Self::with_commands(
                    old(self).commands().handlers,
                    crate::predefined_commands::command_views(cmds@),
                ),
                answers: old(self).commands().answers,
            }),
            match r {
                Ok(_) => Self::invalid_names(crate::predefined_commands::command_views(cmds@))
                    == Seq::<Seq<char>>::empty(),
                Err(errs) => errs@.len() > 0 && errs@.map_values(|e: InvalidCommandName| e.0@)
                    == Self::invalid_names(crate::predefined_commands::command_views(cmds@)),
            },
    {
        let ghost all = crate::predefined_commands::command_views(cmds@);
        let mut errs: Vec<InvalidCommandName> = Vec::new();
        let mut i: usize = 0;
        proof {
            assert(errs@.map_values(|e: InvalidCommandName| e.0@) =~= Self::invalid_names(
                all.take(0),
            ));
        }
        while i < cmds.len()
            invariant
                i <= cmds.len(),
                all == crate::predefined_commands::command_views(cmds@),
                self.vars@ == old(self).vars@,
                self.root_path() == old(self).root_path(),
                self.commands() == (Registry {
                    handlers: Self::with_commands(
                        old(self).commands().handlers,
                        all.take(i as int),
                    ),
                    answers: old(self).commands().answers,
                }),
                errs@.map_values(|e: InvalidCommandName| e.0@) == Self::invalid_names(
                    all.take(i as int),
                ),
            decreases cmds.len() - i,
        {
            proof {
                assert(all.take(i as int + 1).drop_last() =~= all.take(i as int));
                assert(all.take(i as int + 1).last() == (cmds@[i as int].0@, cmds@[i as int].1));
            }
            match self.add_command(cmds[i].0.as_str(), cmds[i].1) {
                Ok(_) => {},
                Err(e) => {
                    proof {
                        assert(errs@.push(e).map_values(|e: InvalidCommandName| e.0@)
                            =~= errs@.map_values(|e: InvalidCommandName| e.0@).push(e.0@));
                    }
                    errs.push(e);
                },
            }
            i += 1;
        }
        proof {
            assert(all.take(all.len() as int) =~= all);
        }
        if errs.len() == 0 {
            Ok(())
        } else {
            Err(errs)
        }
    }

    /// Creates a new engine which knows the given variables and the
    /// predefined commands.
    pub fn with_predefined_commands(vars: VarTable) -> (r: Self)
        ensures
            r.vars@ == vars@,
            r.root_path() is None,
            r.commands() == (Registry {
                handlers: crate::predefined_commands::predefined_registry(),
                answers: Map::empty(),
            }),
    {
        let mut r = Self::new(vars);
        let cmds = crate::predefined_commands::get_all_handlers();
        proof {
            crate::predefined_commands::lemma_predefined_registry();
        }
        let _ = r.add_commands(cmds);
        r
    }

    /// Asks the host: looks up the answer to the request `key`. Gives the
    /// text of the answer, and pushes an issue for each thing that went
    /// wrong on the side of the host, where `doing` says what the host was
    /// asked to do. Where the request has no answer yet, gives no text and
    /// pushes the issue that holds the request.
    pub fn ask_host(&self, cfg: &CommandConfig, issues: &mut Vec<Issue>, key: String, doing: &str) -> (out:
        String)
        ensures
            out@ == crate::model::ask_host(self.commands(), cfg@, key@, doing@).0,
            views(final(issues)@) == views(old(issues)@) + crate::model::ask_host(
                self.commands(),
                cfg@,
                key@,
                doing@,
            ).1,
            cfg.cmd_span.end_pos() <= usize::MAX ==> all_within(
                crate::model::ask_host(self.commands(), cfg@, key@, doing@).1,
                cfg.cmd_span.end_pos(),
            ),
    {
        let ghost goal = crate::model::ask_host(self.commands(), cfg@, key@, doing@);
        match self.answers.get(key.as_str()) {
            Some(answer) => {
                let ghost errors = crate::escape::texts(answer.errors@);
                let mut i: usize = 0;
                proof {
                    assert(goal.1 == crate::model::host_issues(cfg@, errors, doing@));
                    assert(views(issues@) + goal.1.take(0) =~= views(issues@));
                }
                while i < answer.errors.len()
                    invariant
                        i <= answer.errors.len(),
                        errors == crate::escape::texts(answer.errors@),
                        goal.1 == crate::model::host_issues(cfg@, errors, doing@),
                        views(issues@) == views(old(issues)@) + goal.1.take(i as int),
                    decreases answer.errors.len() - i,
                {
                    let issue = Issue::io_error(
                        answer.errors[i].as_str(),
                        cfg.cmd_span,
                        Some(doing),
                    );
                    proof {
                        assert(errors[i as int] == answer.errors@[i as int]@);
                        assert(goal.1[i as int] == issue@);
                        assert(views(issues@.push(issue)) =~= views(issues@).push(issue@));
                        assert(goal.1.take(i as int + 1) =~= goal.1.take(i as int).push(
                            goal.1[i as int],
                        ));
                        assert((views(old(issues)@) + goal.1.take(i as int)).push(issue@)
                            =~= views(old(issues)@) + goal.1.take(i as int).push(issue@));
                    }
                    issues.push(issue);
                    i += 1;
                }
                proof {
                    assert(goal.1.take(goal.1.len() as int) =~= goal.1);
                }
                answer.text.clone()
            },
            None => {
                let issue = Issue { id: "host:pending", msg: key, span: cfg.cmd_span };
                proof {
                    assert(views(issues@.push(issue)) =~= views(issues@) + seq![issue@]);
                }
                issues.push(issue);
                String::new()
            },
        }
    }

    /// The handler known under `name`, if there is one.
    pub fn handler_of(&self, name: &str) -> (r: Option<CommandHandler>)
        ensures
            r == if self.commands().handlers.contains_key(name@) {
                Some(self.commands().handlers[name@])
            } else {
                None
            },
    {
        match self.commands.get(name) {
            Some(h) => Some(*h),
            None => None,
        }
    }

    /// Expands `template`. Gives the output text and the issues raised.
    pub fn process_new(&mut self, template: String) -> (r: (String, Vec<Issue>))
        ensures
            took_effect(
                *old(self),
                Seq::empty(),
                *final(self),
                r.1@,
                r.0@,
                expand(old(self).commands(), old(self).vars@, template@),
                byte_len(template@) as int,
            ),
            byte_len(template@) <= usize::MAX,
        decreases template@.len(), 10nat, 1nat,
    {
        let mut issues: Vec<Issue> = Vec::new();
        assert(views(issues@) =~= Seq::<IssueView>::empty());
        let processed = self.process(template, &mut issues);
        (processed, issues)
    }

    /// Expands `s`, pushing any issues onto `issues`.
    ///
    /// Literal text is copied, without the backslashes that escape a
    /// delimiter. Every command is replaced by what its handler gives. The
    /// output is always produced; what goes wrong is told by the issues.
    pub fn process(&mut self, s: String, issues: &mut Vec<Issue>) -> (out: String)
        ensures
            took_effect(
                *old(self),
                old(issues)@,
                *final(self),
                final(issues)@,
                out@,
                expand(old(self).commands(), old(self).vars@, s@),
                byte_len(s@) as int,
            ),
            byte_len(s@) <= usize::MAX,
        decreases s@.len(), 10nat, 0nat,
    {
        let src = chars_of(s.as_str());
        let offsets = byte_offsets(&src);
        let segs = scan_segments(&src);
        let ghost cmds = self.commands();
        let ghost vars = self.vars@;
        let ghost total = byte_len(src@) as int;
        push_structural_issues(&src, &offsets, &segs, issues);
        let ghost issues_mid = issues@;
        let ghost start = *self;
        proof {
            lemma_structural_issues_within(src@, segs@);
        }
        let mut out = String::new();
        let mut k: usize = 0;
        proof {
            assert(views(issues@) + Seq::<IssueView>::empty() =~= views(issues@));
        }
        while k < segs.len()
            invariant
                k <= segs.len(),
                src@ == s@,
                total == byte_len(src@),
                total <= usize::MAX,
                segs@ == segments(src@),
                offsets@.len() == src@.len() + 1,
                forall|j: int|
                    0 <= j <= src@.len() ==> #[trigger] offsets@[j] == byte_len(src@.take(j)),
                forall|j: int|
                    0 <= j < segs@.len() ==> segment_fits(#[trigger] segs@[j], src@.len() as int),
                cmds == start.commands(),
                took_effect(
                    start,
                    issues_mid,
                    *self,
                    issues@,
                    out@,
                    expand_segments(cmds, vars, src@, segs@, k as nat),
                    total,
                ),
            decreases segs.len() - k,
        {
            let seg = segs[k];
            let ghost before = expand_segments(cmds, vars, src@, segs@, k as nat);
            proof {
                assert(segment_fits(segs@[k as int], src@.len() as int));
            }
            match seg.kind {
                SegmentKind::Literal => {
                    let mut text: Vec<char> = Vec::new();
                    push_literal(&mut text, &src, seg.start, seg.end);
                    out.append(string_of(&text).as_str());
                },
                SegmentKind::StrayClose => {},
                _ => {
                    let ghost r = run_command(cmds, before.vars, src@, seg);
                    let text = self.dispatch(&src, &offsets, seg, issues);
                    out.append(text.as_str());
                    proof {
                        assert(views(issues@) =~= views(issues_mid) + (before.issues + r.issues));
                        lemma_within_concat(before.issues, r.issues, total);
                    }
                },
            }
            k += 1;
        }
        proof {
            let r = expand_segments(cmds, vars, src@, segs@, segs@.len());
            assert(views(issues@) =~= views(old(issues)@) + (structural_issues(src@, segs@)
                + r.issues));
            lemma_within_concat(structural_issues(src@, segs@), r.issues, total);
        }
        out
    }

    /// Runs the command of the segment `seg` of `src`: finds its name and
    /// body and its handler, and calls the handler. `offsets` holds the
    /// byte offset of every character position of `src`.
    fn dispatch(
        &mut self,
        src: &Vec<char>,
        offsets: &Vec<usize>,
        seg: Segment,
        issues: &mut Vec<Issue>,
    ) -> (out: String)
        requires
            byte_len(src@) <= usize::MAX,
            segment_fits(seg, src@.len() as int),
            seg.kind == SegmentKind::Command || seg.kind == SegmentKind::OpenCommand,
            offsets@.len() == src@.len() + 1,
            forall|j: int| 0 <= j <= src@.len() ==> #[trigger] offsets@[j] == byte_len(src@.take(j)),
        ensures
            took_effect(
                *old(self),
                old(issues)@,
                *final(self),
                final(issues)@,
                out@,
                run_command(old(self).commands(), old(self).vars@, src@, seg),
                byte_len(src@) as int,
            ),
        decreases src@.len(), 8nat, 0nat,
    {
        let ghost total = byte_len(src@) as int;
        let parts = CommandParts::of(src, offsets, seg);
        proof {
            lemma_name_end_bounds(src@.subrange(seg.start as int, seg.end as int), 0);
        }
        match self.handler_of(parts.name.as_str()) {
            Some(handler) => {
                let cfg = CommandConfig {
                    body: parts.body,
                    body_span: parts.body_span,
                    cmd_span: parts.cmd_span,
                };
                let ghost o = run_handler(handler, self.commands(), self.vars@, cfg@);
                let out = self.invoke(handler, cfg, issues);
                proof {
                    lemma_within_weaken(o.issues, parts.cmd_span.end_pos(), total);
                }
                out
            },
            None => {
                let fallback = if parts.body.as_str().unicode_len() == 0 {
                    self.handler_of("")
                } else {
                    None
                };
                proof {
                    reveal_strlit("");
                    assert(""@ =~= Seq::<char>::empty());
                }
                match fallback {
                    Some(handler) => {
                        let cfg = CommandConfig {
                            body: parts.head,
                            body_span: parts.name_span,
                            cmd_span: parts.cmd_span,
                        };
                        let ghost o = run_handler(handler, self.commands(), self.vars@, cfg@);
                        let out = self.invoke(handler, cfg, issues);
                        proof {
                            lemma_within_weaken(o.issues, parts.cmd_span.end_pos(), total);
                        }
                        out
                    },
                    None => {
                        let issue = unknown_command(src, seg, parts.cmd_span);
                        proof {
                            assert(views(issues@.push(issue)) =~= views(issues@) + seq![issue@]);
                        }
                        issues.push(issue);
                        String::new()
                    },
                }
            },
        }
    }

    /// Calls the handler `handler` with `cfg`. Gives the text that the
    /// command is replaced by.
    pub fn invoke(
        &mut self,
        handler: CommandHandler,
        cfg: CommandConfig,
        issues: &mut Vec<Issue>,
    ) -> (out: String)
        requires
            cfg.wf(),
        ensures
            took_effect(
                *old(self),
                old(issues)@,
                *final(self),
                final(issues)@,
                out@,
                run_handler(handler, old(self).commands(), old(self).vars@, cfg@),
                cfg.cmd_span.end_pos(),
            ),
        decreases cfg.body@.len(), 20nat, 0nat,
    {
        match handler {
            CommandHandler::Literal => crate::predefined_commands::literal_handler(
                cfg,
                self,
                issues,
            ),
            CommandHandler::Eval => crate::predefined_commands::eval_handler(cfg, self, issues),
            CommandHandler::GetVar => crate::predefined_commands::get_var_handler(
                cfg,
                self,
                issues,
            ),
            CommandHandler::SetVar => crate::predefined_commands::set_var_handler(
                cfg,
                self,
                issues,
            ),
            CommandHandler::Fallback => crate::predefined_commands::fallback_handler(
                cfg,
                self,
                issues,
            ),
            CommandHandler::SortBy => crate::predefined_commands::sort_by_handler(
                cfg,
                self,
                issues,
            ),
            CommandHandler::For => crate::for_loop::handler(cfg, self, issues),
            CommandHandler::Run => crate::predefined_commands::run_process_handler(
                cfg,
                self,
                issues,
            ),
            CommandHandler::Include => crate::predefined_commands::include_handler(
                cfg,
                self,
                issues,
            ),
            CommandHandler::Lsdir => crate::lsdir::handler(cfg, self, issues),
        }
    }
}

} // verus!
