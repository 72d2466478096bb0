//! The listing of a directory: which directory, and which of its entries.

use vstd::prelude::*;
use vstd::string::{StrSliceExecFns, StringExecFns};
use crate::engine::{lemma_within_concat, took_effect, CommandConfig, Engine};
use crate::escape::{
    cut_pairs, escape_pairs, lemma_splitn_not_escaped, split_items, split_not_escaped,
    split_unescaped, texts, unescape, unescape_pairs, Restore,
};
use crate::issue::{all_within, views, Issue, IssueView};
use crate::model::{
    answer_entries, is_listed, listed_paths, listing, listing_of, part, run_eval, run_lsdir,
    unknown_verb_issue, Listing, Outcome,
};
use crate::parser::ESCAPE;
use crate::predefined_commands::eval_handler;
use crate::shell_util::{index_of, matches_pattern};
use crate::text::{chars_of, is_word, push_all, slice_of, string_of};
use crate::tools::{join_with, unescape_colons_of};

verus! {

/// Which entries of a directory are listed.
#[derive(Debug, Clone, PartialEq, Eq)]
pub struct LsdirConfig {
    /// The path of the directory.
    pub path: String,
    /// The patterns of the names that are left out.
    pub exclude_by_name: Vec<String>,
    /// The patterns of the names that are listed, if not all are.
    pub include_only_by_name: Option<Vec<String>>,
}

impl View for LsdirConfig {
    type V = Listing;

    open spec fn view(&self) -> Listing {
        Listing {
            path: self.path@,
            exclude_by_name: texts(self.exclude_by_name@),
            include_only_by_name: match self.include_only_by_name {
                Some(v) => Some(texts(v@)),
                None => None,
            },
        }
    }
}

/// Appends the texts `names` to `list`, as strings.
fn push_names(list: &mut Vec<String>, names: &Vec<Vec<char>>)
    ensures
        texts(final(list)@) == texts(old(list)@) + names@.map_values(|p: Vec<char>| p@),
{
    let ghost all = names@.map_values(|p: Vec<char>| p@);
    let mut i: usize = 0;
    proof {
        assert(texts(list@) + all.take(0) =~= texts(list@));
    }
    while i < names.len()
        invariant
            i <= names.len(),
            all == names@.map_values(|p: Vec<char>| p@),
            texts(list@) == texts(old(list)@) + all.take(i as int),
        decreases names.len() - i,
    {
        let name = string_of(&names[i]);
        proof {
            assert(all[i as int] == names@[i as int]@);
            assert(texts(list@.push(name)) =~= texts(list@).push(name@));
            assert(all.take(i as int + 1) =~= all.take(i as int).push(all[i as int]));
            assert((texts(old(list)@) + all.take(i as int)).push(name@) =~= texts(old(list)@)
                + all.take(i as int).push(name@));
        }
        list.push(name);
        i += 1;
    }
    proof {
        assert(all.take(all.len() as int) =~= all);
    }
}

impl LsdirConfig {
    /// Reads from the body of the command which directory is listed and
    /// which entries.
    ///
    /// The expanded body is cut at the colons that are not escaped. The
    /// first piece is the directory. Each of the others has the form
    /// `<verb> <object>`:
    /// - `exclude_names`: the object is a list of patterns, separated by
    ///   spaces (`\ ` for a space in a pattern). Entries whose names match
    ///   one of these patterns are not listed. A pattern is a name, or `*`
    ///   and the end of a name.
    /// - `include_only_names`: the object is a list of patterns too. Only
    ///   entries whose names match one of these patterns are listed.
    ///
    /// Any other verb raises an issue and is passed over.
    pub fn new(cfg: CommandConfig, engine: &mut Engine, issues: &mut Vec<Issue>) -> (r: Result<
        Self,
        Issue,
    >)
        requires
            cfg.wf(),
        ensures
            ({
                let e = run_eval(old(engine).commands(), old(engine).vars@, cfg@);
                let l = listing(cfg@, e.text);
                &&& took_effect(
                    *old(engine),
                    old(issues)@,
                    *final(engine),
                    final(issues)@,
                    Seq::empty(),
                    Outcome { text: Seq::empty(), issues: e.issues + l.1, vars: e.vars },
                    cfg.cmd_span.end_pos(),
                )
                &&& r is Ok
                &&& r->Ok_0@ == l.0
            }),
        decreases cfg.body@.len(), 19nat, 1nat,
    {
        let ghost ctx = cfg@;
        let ghost e = run_eval(engine.commands(), engine.vars@, ctx);
        let ghost bound = cfg.cmd_span.end_pos();
        let cmd_span = cfg.cmd_span;
        let body = eval_handler(cfg, engine, issues);
        let text = chars_of(body.as_str());
        let pieces = split_unescaped(&text, ':', ESCAPE);
        let ghost all = split_not_escaped(text@, ':', ESCAPE);
        let ghost args = all.skip(1);
        proof {
            lemma_splitn_not_escaped(text@, text@.len() + 1, ':', ESCAPE);
            assert(all.len() == pieces@.len());
            assert(all[0] == pieces@[0]@);
        }
        let path = string_of(&pieces[0]);
        let mut exclude: Vec<String> = Vec::new();
        let mut only: Option<Vec<String>> = None;
        let ghost mut raised: Seq<IssueView> = Seq::empty();
        let ghost issues_mid = issues@;
        let mut k: usize = 1;
        proof {
            assert(texts(exclude@) =~= Seq::<Seq<char>>::empty());
            assert(views(issues@) + raised =~= views(issues@));
        }
        while k < pieces.len()
            invariant
                1 <= k <= pieces.len(),
                all == pieces@.map_values(|p: Vec<char>| p@),
                args == all.skip(1),
                cmd_span == ctx.cmd_span,
                bound == cmd_span.end_pos(),
                bound <= usize::MAX,
                views(issues@) == views(issues_mid) + raised,
                all_within(raised, bound),
                listing_of(ctx, path@, args, (k - 1) as nat) == ((Listing {
                    path: path@,
                    exclude_by_name: texts(exclude@),
                    include_only_by_name: match only {
                        Some(v) => Some(texts(v@)),
                        None => None,
                    },
                }), raised),
            decreases pieces.len() - k,
        {
            let arg = &pieces[k];
            proof {
                assert(args[k - 1] == pieces@[k as int]@);
            }
            let mut sp: usize = 0;
            while sp < arg.len() && arg[sp] != ' '
                invariant
                    sp <= arg@.len(),
                    index_of(arg@, ' ', sp as int) == index_of(arg@, ' ', 0),
                decreases arg@.len() - sp,
            {
                sp += 1;
            }
            if sp < arg.len() {
                let verb = slice_of(arg, 0, sp);
                let object = slice_of(arg, sp + 1, arg.len());
                proof {
                    assert(verb@ =~= part(arg@, 0, sp as int));
                    assert(object@ =~= part(arg@, sp + 1, arg@.len() as int));
                }
                if is_word(&verb, "exclude_names") {
                    let names = split_unescaped(&object, ' ', ESCAPE);
                    push_names(&mut exclude, &names);
                } else if is_word(&verb, "include_only_names") {
                    let names = split_unescaped(&object, ' ', ESCAPE);
                    let mut list = match only {
                        Some(v) => v,
                        None => Vec::new(),
                    };
                    proof {
                        if only is None {
                            assert(texts(list@) + names@.map_values(|p: Vec<char>| p@)
                                =~= names@.map_values(|p: Vec<char>| p@));
                        }
                    }
                    push_names(&mut list, &names);
                    only = Some(list);
                } else {
                    let mut msg = String::from_str("warning: ignoring unrecognised verb `");
                    msg.append(string_of(&verb).as_str());
                    msg.append("`");
                    let issue = Issue { id: "command:invalid_args:partial", msg, span: cmd_span };
                    proof {
                        assert(issue@ == unknown_verb_issue(ctx, verb@));
                        assert(views(issues@.push(issue)) =~= views(issues@).push(issue@));
                        assert((views(issues_mid) + raised).push(issue@) =~= views(issues_mid)
                            + raised.push(issue@));
                        lemma_within_concat(raised, seq![issue@], bound);
                        assert(raised + seq![issue@] =~= raised.push(issue@));
                        raised = raised.push(issue@);
                    }
                    issues.push(issue);
                }
            }
            k += 1;
        }
        proof {
            assert(args.len() == pieces@.len() - 1);
            lemma_within_concat(e.issues, raised, bound);
            assert(views(issues@) =~= views(old(issues)@) + (e.issues + raised));
        }
        Ok(LsdirConfig { path, exclude_by_name: exclude, include_only_by_name: only })
    }

    /// Tests if an entry with the file name `name` is listed: it matches
    /// one of the patterns of the names that are listed, if not all are,
    /// and none of those that are left out. An entry without a file name
    /// is listed.
    pub fn is_included(&self, name: Option<&str>) -> (r: bool)
        ensures
            r == is_listed(self@, match name {
                Some(n) => Some(n@),
                None => None,
            }),
    {
        match name {
            None => true,
            Some(n) => {
                let wanted = match &self.include_only_by_name {
                    Some(v) => matches_any(n, v),
                    None => true,
                };
                let unwanted = matches_any(n, &self.exclude_by_name);
                proof {
                    let l = self@;
                    assert(l.exclude_by_name == texts(self.exclude_by_name@));
                    assert(unwanted == !(forall|i: int|
                        0 <= i < l.exclude_by_name.len() ==> !crate::shell_util::matches(
                            n@,
                            #[trigger] l.exclude_by_name[i],
                        )));
                    if self.include_only_by_name is Some {
                        let v = self.include_only_by_name->0;
                        assert(l.include_only_by_name == Some(texts(v@)));
                    } else {
                        assert(l.include_only_by_name is None);
                    }
                }
                wanted && !unwanted
            },
        }
    }
}

/// Tests if the name `n` matches one of the patterns `patterns`.
pub fn matches_any(n: &str, patterns: &Vec<String>) -> (r: bool)
    ensures
        r == exists|j: int|
            0 <= j < texts(patterns@).len() && crate::shell_util::matches(
                n@,
                #[trigger] texts(patterns@)[j],
            ),
{
    let mut i: usize = 0;
    while i < patterns.len()
        invariant
            i <= patterns.len(),
            forall|j: int|
                0 <= j < i ==> !crate::shell_util::matches(n@, #[trigger] texts(patterns@)[j]),
        decreases patterns.len() - i,
    {
        proof {
            assert(texts(patterns@)[i as int] == patterns@[i as int]@);
        }
        if matches_pattern(n, patterns[i].as_str()) {
            return true;
        }
        i += 1;
    }
    false
}

/// Cuts what the host answered into its entries: see [`answer_entries`].
fn entries_of(text: &str) -> (r: Vec<Vec<char>>)
    ensures
        r@.map_values(|p: Vec<char>| p@) == answer_entries(text@),
{
    let chars = chars_of(text);
    let mut r: Vec<Vec<char>> = Vec::new();
    if chars.len() == 0 {
        assert(r@.map_values(|p: Vec<char>| p@) =~= Seq::<Seq<char>>::empty());
        return r;
    }
    let items = escape_pairs(&chars, ESCAPE);
    let pieces = cut_pairs(&items, ':', None);
    let ghost raw = split_items(items@, ':');
    let ghost goal = answer_entries(text@);
    let mut i: usize = 0;
    proof {
        assert(pieces@.map_values(|p: Vec<(bool, char)>| p@).len() == pieces@.len());
        assert(r@.map_values(|p: Vec<char>| p@) =~= goal.take(0));
    }
    while i < pieces.len()
        invariant
            i <= pieces.len(),
            raw == pieces@.map_values(|p: Vec<(bool, char)>| p@),
            goal == raw.map_values(|p: Seq<(bool, char)>| unescape(p, Restore::All, ESCAPE)),
            r@.map_values(|p: Vec<char>| p@) == goal.take(i as int),
        decreases pieces.len() - i,
    {
        let entry = unescape_pairs(&pieces[i], Restore::All, ESCAPE);
        proof {
            assert(raw[i as int] == pieces@[i as int]@);
            assert(goal[i as int] == entry@);
            assert(r@.push(entry).map_values(|p: Vec<char>| p@) =~= r@.map_values(
                |p: Vec<char>| p@,
            ).push(entry@));
            assert(goal.take(i as int + 1) =~= goal.take(i as int).push(goal[i as int]));
        }
        r.push(entry);
        i += 1;
    }
    proof {
        assert(goal.take(goal.len() as int) =~= goal);
    }
    r
}

/// Outputs a filtered list of the entries of a directory, as paths with
/// colons between them.
///
/// The argument says which directory and which entries: see
/// [`LsdirConfig::new`]. The directory itself is read by the host: see
/// [`crate::host`].
pub fn handler(cfg: CommandConfig, engine: &mut Engine, issues: &mut Vec<Issue>) -> (out: String)
    requires
        cfg.wf(),
    ensures
        took_effect(
            *old(engine),
            old(issues)@,
            *final(engine),
            final(issues)@,
            out@,
            run_lsdir(old(engine).commands(), old(engine).vars@, cfg@),
            cfg.cmd_span.end_pos(),
        ),
    decreases cfg.body@.len(), 19nat, 2nat,
{
    let ghost ctx = cfg@;
    let ghost cmds = engine.commands();
    let ghost e = run_eval(cmds, engine.vars@, ctx);
    let ghost l = listing(ctx, e.text);
    let ghost bound = cfg.cmd_span.end_pos();
    let spans = CommandConfig {
        body: String::new(),
        body_span: cfg.body_span,
        cmd_span: cfg.cmd_span,
    };
    let config = match LsdirConfig::new(cfg, engine, issues) {
        Ok(c) => c,
        Err(_) => {
            return String::new();
        },
    };
    let mut key = String::from_str("lsdir ");
    key.append(config.path.as_str());
    let mut doing = String::from_str("while trying to read the directory ");
    doing.append(config.path.as_str());
    let ghost answer = crate::model::ask_host(cmds, ctx, key@, doing@);
    let listing_text = engine.ask_host(&spans, issues, key, doing.as_str());
    proof {
        assert(views(issues@) =~= views(old(issues)@) + (e.issues + l.1 + answer.1));
        lemma_within_concat(e.issues + l.1, answer.1, bound);
    }
    let entries = entries_of(listing_text.as_str());
    let ghost all = answer_entries(answer.0);
    let ghost goal = listed_paths(l.0, all, 0);
    let mut out: Vec<char> = Vec::new();
    let ghost mut done: Seq<Seq<char>> = Seq::empty();
    let mut k: usize = 0;
    let mut any = false;
    let n = entries.len();
    proof {
        assert(done + goal =~= goal);
        assert(all.len() == entries@.len());
    }
    while k < n && k + 1 < n
        invariant
            k <= n,
            n == entries@.len(),
            all == entries@.map_values(|p: Vec<char>| p@),
            config@ == l.0,
            any == (done.len() > 0),
            done + listed_paths(l.0, all, k as int) == goal,
            out@ == join_with(done, ':'),
        decreases n - k,
    {
        proof {
            assert(all[k as int] == entries@[k as int]@);
            assert(all[k as int + 1] == entries@[k as int + 1]@);
        }
        let name = string_of(&unescape_colons_of(&entries[k]));
        if config.is_included(Some(name.as_str())) {
            proof {
                let rest = listed_paths(l.0, all, k as int + 2);
                assert(done.push(all[k as int + 1]) + rest =~= done + (seq![all[k as int + 1]]
                    + rest));
                assert(done.push(all[k as int + 1]).drop_last() =~= done);
            }
            if any {
                out.push(':');
            }
            push_all(&mut out, &entries[k + 1]);
            proof {
                if !any {
                    assert(Seq::<char>::empty() + all[k as int + 1] =~= all[k as int + 1]);
                }
                done = done.push(all[k as int + 1]);
            }
            any = true;
        }
        k += 2;
    }
    proof {
        assert(listed_paths(l.0, all, k as int) =~= Seq::<Seq<char>>::empty());
        assert(done + Seq::<Seq<char>>::empty() =~= done);
    }
    string_of(&out)
}

} // verus!
