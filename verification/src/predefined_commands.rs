//! The predefined commands.
//!
//! What to expand: arguments are expanded unless they have a syntax of
//! their own; what a command gives is not expanded again.

use vstd::prelude::*;
use vstd::string::{StrSliceExecFns, StringExecFns};
use crate::engine::{lemma_within_concat, lemma_within_weaken, took_effect, CommandConfig, Engine};
use crate::escape::{lemma_splitn_not_escaped, split_not_escaped, split_unescaped, texts};
use crate::issue::{views, Issue, IssueView};
use crate::iterate::{order_of, sort_items};
use crate::model::{
    first_filled, invalid_args_issue, part, reescape_colons, run_eval, run_fallback, run_get_var,
    run_handler, run_set_var, run_sort_by, sort_keys, CommandHandler,
};
use crate::parser::ESCAPE;
use crate::sort::sorted_by_key;
use crate::span::Span;
use crate::text::{
    byte_len, byte_offsets, chars_of, lemma_byte_len_subrange, push_all, slice_of, string_of,
};
use crate::tools::{find_sep, first_sep, join_with};

verus! {

/// The predefined commands, each with the name it is known under:
/// - `lit` for [`literal_handler`]
/// - `eval` for [`eval_handler`]
/// - the empty name and `var` for [`get_var_handler`]; the empty name makes
///   `(%variable%)` give the value of a variable
/// - `let` for [`set_var_handler`]
/// - `run` for [`run_process_handler`]
/// - `alt` for [`fallback_handler`]
/// - `sort_by` for [`sort_by_handler`]
/// - `lsdir` for the listing of a directory
/// - `for` for the loop
pub open spec fn predefined() -> Seq<(Seq<char>, CommandHandler)> {
    seq![
        ("lit"@, CommandHandler::Literal),
        ("eval"@, CommandHandler::Eval),
        (""@, CommandHandler::GetVar),
        ("var"@, CommandHandler::GetVar),
        ("let"@, CommandHandler::SetVar),
        ("run"@, CommandHandler::Run),
        ("alt"@, CommandHandler::Fallback),
        ("sort_by"@, CommandHandler::SortBy),
        ("lsdir"@, CommandHandler::Lsdir),
        ("for"@, CommandHandler::For),
    ]
}

/// The commands of an engine that knows the predefined commands and no
/// others.
pub open spec fn predefined_registry() -> Map<Seq<char>, CommandHandler> {
    Map::<Seq<char>, CommandHandler>::empty().insert("lit"@, CommandHandler::Literal).insert(
        "eval"@,
        CommandHandler::Eval,
    ).insert(""@, CommandHandler::GetVar).insert("var"@, CommandHandler::GetVar).insert(
        "let"@,
        CommandHandler::SetVar,
    ).insert("run"@, CommandHandler::Run).insert("alt"@, CommandHandler::Fallback).insert(
        "sort_by"@,
        CommandHandler::SortBy,
    ).insert("lsdir"@, CommandHandler::Lsdir).insert("for"@, CommandHandler::For)
}

/// Adding a command with a valid name to the commands that a list gave
/// gives what the list with that command at its end gives.
proof fn lemma_with_command(p: Seq<(Seq<char>, CommandHandler)>, k: int)
    requires
        0 <= k < p.len(),
        Engine::valid_name(p[k].0),
    ensures
        Engine::with_commands(Map::empty(), p.take(k + 1)) == Engine::with_commands(
            Map::empty(),
            p.take(k),
        ).insert(p[k].0, p[k].1),
        Engine::invalid_names(p.take(k + 1)) == Engine::invalid_names(p.take(k)),
{
    assert(p.take(k + 1).drop_last() =~= p.take(k));
    assert(p.take(k + 1).last() == p[k]);
}

/// Every predefined command has a valid name, so adding them all to an
/// engine without commands gives [`predefined_registry`].
pub proof fn lemma_predefined_registry()
    ensures
        Engine::with_commands(Map::empty(), predefined()) == predefined_registry(),
        Engine::invalid_names(predefined()) == Seq::<Seq<char>>::empty(),
{
    reveal_strlit("lit");
    reveal_strlit("eval");
    reveal_strlit("");
    reveal_strlit("var");
    reveal_strlit("let");
    reveal_strlit("run");
    reveal_strlit("alt");
    reveal_strlit("sort_by");
    reveal_strlit("lsdir");
    reveal_strlit("for");
    let p = predefined();
    assert(Engine::valid_name("lit"@));
    assert(Engine::valid_name("eval"@));
    assert(Engine::valid_name(""@));
    assert(Engine::valid_name("var"@));
    assert(Engine::valid_name("let"@));
    assert(Engine::valid_name("run"@));
    assert(Engine::valid_name("alt"@));
    assert(Engine::valid_name("sort_by"@));
    assert(Engine::valid_name("lsdir"@));
    assert(Engine::valid_name("for"@));
    assert(p.take(0) =~= Seq::empty());
    assert(Engine::invalid_names(p.take(0)) =~= Seq::<Seq<char>>::empty());
    lemma_with_command(p, 0);
    lemma_with_command(p, 1);
    lemma_with_command(p, 2);
    lemma_with_command(p, 3);
    lemma_with_command(p, 4);
    lemma_with_command(p, 5);
    lemma_with_command(p, 6);
    lemma_with_command(p, 7);
    lemma_with_command(p, 8);
    lemma_with_command(p, 9);
    assert(p.take(10) =~= p);
}

/// The names and handlers of a list of commands.
pub open spec fn command_views(cmds: Seq<(String, CommandHandler)>) -> Seq<
    (Seq<char>, CommandHandler),
> {
    cmds.map_values(|c: (String, CommandHandler)| (c.0@, c.1))
}

/// Creates a list of all the predefined commands: see [`predefined`].
pub fn get_all_handlers() -> (r: Vec<(String, CommandHandler)>)
    ensures
        command_views(r@) == predefined(),
{
    let mut r: Vec<(String, CommandHandler)> = Vec::new();
    r.push(("lit".to_string(), CommandHandler::Literal));
    r.push(("eval".to_string(), CommandHandler::Eval));
    r.push(("".to_string(), CommandHandler::GetVar));
    r.push(("var".to_string(), CommandHandler::GetVar));
    r.push(("let".to_string(), CommandHandler::SetVar));
    r.push(("run".to_string(), CommandHandler::Run));
    r.push(("alt".to_string(), CommandHandler::Fallback));
    r.push(("sort_by".to_string(), CommandHandler::SortBy));
    r.push(("lsdir".to_string(), CommandHandler::Lsdir));
    r.push(("for".to_string(), CommandHandler::For));
    proof {
        assert(command_views(r@) =~= predefined());
    }
    r
}

/// Outputs its argument literally, preventing it from being expanded.
pub fn literal_handler(cfg: CommandConfig, engine: &mut Engine, issues: &mut Vec<Issue>) -> (out:
    String)
    requires
        cfg.wf(),
    ensures
        took_effect(
            *old(engine),
            old(issues)@,
            *final(engine),
            final(issues)@,
            out@,
            run_handler(CommandHandler::Literal, old(engine).commands(), old(engine).vars@, cfg@),
            cfg.cmd_span.end_pos(),
        ),
{
    proof {
        assert(views(issues@) + Seq::<IssueView>::empty() =~= views(issues@));
    }
    cfg.body
}

/// Expands its argument.
pub fn eval_handler(cfg: CommandConfig, engine: &mut Engine, issues: &mut Vec<Issue>) -> (out:
    String)
    requires
        cfg.wf(),
    ensures
        took_effect(
            *old(engine),
            old(issues)@,
            *final(engine),
            final(issues)@,
            out@,
            run_eval(old(engine).commands(), old(engine).vars@, cfg@),
            cfg.cmd_span.end_pos(),
        ),
    decreases cfg.body@.len(), 19nat, 0nat,
{
    let ghost o = run_eval(engine.commands(), engine.vars@, cfg@);
    let mut cfg = cfg;
    let out = cfg.process_body(engine, issues);
    proof {
        lemma_within_weaken(o.issues, cfg.body_span.end_pos(), cfg.cmd_span.end_pos());
    }
    out
}

/// Substitutes the value of a variable: the expanded argument is the name
/// of the variable. The value itself is not expanded. A variable that is
/// not known gives no text and an issue.
pub fn get_var_handler(cfg: CommandConfig, engine: &mut Engine, issues: &mut Vec<Issue>) -> (out:
    String)
    requires
        cfg.wf(),
    ensures
        took_effect(
            *old(engine),
            old(issues)@,
            *final(engine),
            final(issues)@,
            out@,
            run_get_var(old(engine).commands(), old(engine).vars@, cfg@),
            cfg.cmd_span.end_pos(),
        ),
    decreases cfg.body@.len(), 19nat, 1nat,
{
    let ghost ctx = cfg@;
    let ghost r = run_eval(engine.commands(), engine.vars@, ctx);
    let key = eval_handler(
        CommandConfig { body: cfg.body, body_span: cfg.body_span, cmd_span: cfg.cmd_span },
        engine,
        issues,
    );
    match engine.vars.get(key.as_str()) {
        Some(v) => v,
        None => {
            let mut msg = String::from_str("unknown variable: ");
            msg.append(key.as_str());
            let issue = Issue { id: "command:invalid_args", msg, span: cfg.body_span };
            proof {
                assert(issue@ == invalid_args_issue(ctx, "unknown variable: "@ + r.text));
                assert(views(issues@.push(issue)) =~= views(issues@).push(issue@));
                assert((views(old(issues)@) + r.issues).push(issue@) =~= views(old(issues)@)
                    + r.issues.push(issue@));
                assert forall|j: int| 0 <= j < r.issues.push(issue@).len() implies (
                #[trigger] r.issues.push(issue@)[j]).span.within(cfg.cmd_span.end_pos()) by {
                    if j < r.issues.len() {
                        assert(r.issues[j].span.within(cfg.cmd_span.end_pos()));
                    }
                }
            }
            issues.push(issue);
            String::new()
        },
    }
}

/// Sets a variable: the expanded argument is the name of the variable,
/// `=`, and the value. Gives no text.
pub fn set_var_handler(cfg: CommandConfig, engine: &mut Engine, issues: &mut Vec<Issue>) -> (out:
    String)
    requires
        cfg.wf(),
    ensures
        took_effect(
            *old(engine),
            old(issues)@,
            *final(engine),
            final(issues)@,
            out@,
            run_set_var(old(engine).commands(), old(engine).vars@, cfg@),
            cfg.cmd_span.end_pos(),
        ),
    decreases cfg.body@.len(), 19nat, 1nat,
{
    let body = eval_handler(cfg, engine, issues);
    let text = chars_of(body.as_str());
    let pieces = split_unescaped(&text, '=', ESCAPE);
    proof {
        lemma_splitn_not_escaped(text@, text@.len() + 1, '=', ESCAPE);
        assert(pieces@.map_values(|p: Vec<char>| p@).len() == pieces@.len());
        assert(pieces@.map_values(|p: Vec<char>| p@)[0] == pieces@[0]@);
        if pieces@.len() > 1 {
            assert(pieces@.map_values(|p: Vec<char>| p@)[1] == pieces@[1]@);
        }
    }
    let name = string_of(&pieces[0]);
    let value = if pieces.len() > 1 {
        string_of(&pieces[1])
    } else {
        String::new()
    };
    engine.vars.insert(name, value);
    String::new()
}

/// Runs a process and gives what it printed.
///
/// The expanded argument is a command line, in a basic shell-like syntax:
/// words are separated by spaces, and double quotes keep the spaces
/// between them. The process itself is run by the host: see
/// [`crate::host`].
pub fn run_process_handler(cfg: CommandConfig, engine: &mut Engine, issues: &mut Vec<Issue>) -> (out:
    String)
    requires
        cfg.wf(),
    ensures
        took_effect(
            *old(engine),
            old(issues)@,
            *final(engine),
            final(issues)@,
            out@,
            crate::model::run_process(old(engine).commands(), old(engine).vars@, cfg@),
            cfg.cmd_span.end_pos(),
        ),
    decreases cfg.body@.len(), 19nat, 1nat,
{
    let ghost ctx = cfg@;
    let ghost r = run_eval(engine.commands(), engine.vars@, ctx);
    let ghost bound = cfg.cmd_span.end_pos();
    let spans = CommandConfig {
        body: String::new(),
        body_span: cfg.body_span,
        cmd_span: cfg.cmd_span,
    };
    let body = eval_handler(cfg, engine, issues);
    let words = crate::shell_util::split_args(body.as_str());
    proof {
        assert(crate::escape::texts(words@)[0] == words@[0]@);
    }
    if words[0].as_str().unicode_len() == 0 {
        let issue = spans.missing_args("no process to run given");
        proof {
            assert(issue@ == crate::model::missing_args_issue(ctx, "no process to run given"@));
            assert(views(issues@.push(issue)) =~= views(issues@).push(issue@));
            assert((views(old(issues)@) + r.issues).push(issue@) =~= views(old(issues)@)
                + r.issues.push(issue@));
            lemma_within_concat(r.issues, seq![issue@], bound);
            assert(r.issues + seq![issue@] =~= r.issues.push(issue@));
        }
        issues.push(issue);
        return String::new();
    }
    let mut key = String::from_str("run ");
    key.append(body.as_str());
    let ghost answer = crate::model::ask_host(
        engine.commands(),
        ctx,
        key@,
        "while trying to run process"@,
    );
    let out = engine.ask_host(&spans, issues, key, "while trying to run process");
    proof {
        assert(views(issues@) =~= views(old(issues)@) + (r.issues + answer.1));
        lemma_within_concat(r.issues, answer.1, bound);
    }
    out
}

/// Includes a file: gives its content, which is not expanded. The expanded
/// argument is the path of the file. The file itself is read by the host:
/// see [`crate::host`].
pub fn include_handler(cfg: CommandConfig, engine: &mut Engine, issues: &mut Vec<Issue>) -> (out:
    String)
    requires
        cfg.wf(),
    ensures
        took_effect(
            *old(engine),
            old(issues)@,
            *final(engine),
            final(issues)@,
            out@,
            crate::model::run_include(old(engine).commands(), old(engine).vars@, cfg@),
            cfg.cmd_span.end_pos(),
        ),
    decreases cfg.body@.len(), 19nat, 1nat,
{
    let ghost ctx = cfg@;
    let ghost r = run_eval(engine.commands(), engine.vars@, ctx);
    let ghost bound = cfg.cmd_span.end_pos();
    let spans = CommandConfig {
        body: String::new(),
        body_span: cfg.body_span,
        cmd_span: cfg.cmd_span,
    };
    let body = eval_handler(cfg, engine, issues);
    let mut key = String::from_str("include ");
    key.append(body.as_str());
    let ghost answer = crate::model::ask_host(
        engine.commands(),
        ctx,
        key@,
        "while trying to read file"@,
    );
    let out = engine.ask_host(&spans, issues, key, "while trying to read file");
    proof {
        assert(views(issues@) =~= views(old(issues)@) + (r.issues + answer.1));
        lemma_within_concat(r.issues, answer.1, bound);
    }
    out
}

/// Outputs the first of its arguments that is not empty. The expanded
/// argument is cut at the colons that are not escaped by a backslash; any
/// other backslash stays. That all are empty is no issue.
pub fn fallback_handler(cfg: CommandConfig, engine: &mut Engine, issues: &mut Vec<Issue>) -> (out:
    String)
    requires
        cfg.wf(),
    ensures
        took_effect(
            *old(engine),
            old(issues)@,
            *final(engine),
            final(issues)@,
            out@,
            run_fallback(old(engine).commands(), old(engine).vars@, cfg@),
            cfg.cmd_span.end_pos(),
        ),
    decreases cfg.body@.len(), 19nat, 1nat,
{
    let body = eval_handler(cfg, engine, issues);
    let text = chars_of(body.as_str());
    let pieces = split_unescaped(&text, ':', ESCAPE);
    let ghost all = split_not_escaped(text@, ':', ESCAPE);
    let mut i: usize = 0;
    proof {
        assert(all.skip(0) =~= all);
        assert(all.len() == pieces@.len());
    }
    while i < pieces.len() && pieces[i].len() == 0
        invariant
            i <= pieces.len(),
            all == pieces@.map_values(|p: Vec<char>| p@),
            first_filled(all.skip(i as int)) == first_filled(all),
        decreases pieces.len() - i,
    {
        proof {
            assert(all.skip(i as int)[0] == pieces@[i as int]@);
            assert(all.skip(i as int).skip(1) =~= all.skip(i as int + 1));
        }
        i += 1;
    }
    if i < pieces.len() {
        proof {
            assert(all.skip(i as int)[0] == pieces@[i as int]@);
        }
        string_of(&pieces[i])
    } else {
        String::new()
    }
}

/// Puts a backslash before each colon of `s`.
pub fn reescape_colons_of(s: &Vec<char>) -> (r: Vec<char>)
    ensures
        r@ == reescape_colons(s@),
{
    let mut r: Vec<char> = Vec::new();
    let mut i: usize = 0;
    while i < s.len()
        invariant
            i <= s.len(),
            r@ == reescape_colons(s@.take(i as int)),
        decreases s.len() - i,
    {
        proof {
            assert(s@.take(i as int + 1).drop_last() =~= s@.take(i as int));
        }
        if s[i] == ':' {
            r.push(ESCAPE);
        }
        r.push(s[i]);
        i += 1;
    }
    proof {
        assert(s@.take(s@.len() as int) =~= s@);
    }
    r
}

/// Sorts a list by a key that is computed for each entry.
///
/// The argument is `<variable> <order> <expr>:<list>`:
/// - `<variable>` is the variable by which the current entry can be
///   referenced in `<expr>`
/// - `<order>` is one of `+`, `asc`, `ascending`, `inc`, `increasing`, `-`,
///   `desc`, `descending`, `dec`, `decreasing`
/// - `<expr>` is expanded for each entry and gives the key by which the
///   entries are compared
/// - `<list>` is expanded and then cut at the colons that are not escaped
///
/// Gives the sorted list, with colons between the entries and a backslash
/// before each colon inside an entry.
#[verifier::rlimit(50)]
pub fn sort_by_handler(cfg: CommandConfig, engine: &mut Engine, issues: &mut Vec<Issue>) -> (out:
    String)
    requires
        cfg.wf(),
    ensures
        took_effect(
            *old(engine),
            old(issues)@,
            *final(engine),
            final(issues)@,
            out@,
            run_sort_by(old(engine).commands(), old(engine).vars@, cfg@),
            cfg.cmd_span.end_pos(),
        ),
    decreases cfg.body@.len(), 19nat, 0nat,
{
    let ghost ctx = cfg@;
    let ghost cmds = engine.commands();
    let ghost vars = engine.vars@;
    let ghost base = cfg.body_span.start as int;
    let ghost bound = cfg.cmd_span.end_pos();
    let b = chars_of(cfg.body.as_str());
    let n = b.len();
    let offsets = byte_offsets(&b);
    let colon = find_sep(&b, ':', 0);
    let config = slice_of(&b, 0, colon);
    let list_from = if colon < n {
        colon + 1
    } else {
        n
    };
    let e0 = find_sep(&config, ' ', 0);
    let e1 = if e0 < colon {
        find_sep(&config, ' ', e0 + 1)
    } else {
        colon
    };
    let order = if e0 < colon {
        slice_of(&config, e0 + 1, e1)
    } else {
        Vec::new()
    };
    proof {
        assert(config@ =~= part(b@, 0, colon as int));
        assert(b@.subrange(list_from as int, n as int) =~= part(b@, colon + 1, n as int));
        assert(order@ =~= part(config@, e0 + 1, e1 as int));
        assert(e1 == first_sep(config@, ' ', e0 + 1));
    }
    let known = order_of(&order);
    let descending = match known {
        Some(d) => d,
        None => false,
    };
    let problem: Option<String> = if e0 >= colon {
        Some("expected sorting order, got end of argument".to_string())
    } else if known.is_none() {
        let mut msg = String::from_str("invalid sorting order: ");
        msg.append(string_of(&order).as_str());
        Some(msg)
    } else if e1 >= colon {
        Some("no map expression provided".to_string())
    } else if colon >= n {
        Some("no list to sort provided".to_string())
    } else {
        None
    };
    match problem {
        Some(msg) => {
            let issue = Issue { id: "command:invalid_args", msg, span: cfg.body_span };
            proof {
                assert(views(issues@.push(issue)) =~= views(issues@) + seq![issue@]);
            }
            issues.push(issue);
            if colon >= n && e0 < colon && known.is_some() && e1 < colon {
                String::new()
            } else {
                string_of(&slice_of(&b, list_from, n))
            }
        },
        None => {
            let name = slice_of(&config, 0, e0);
            proof {
                assert(name@ =~= part(config@, 0, e0 as int));
                assert(b@.subrange(e1 as int + 1, colon as int) =~= part(
                    config@,
                    e1 + 1,
                    config@.len() as int,
                ));
                assert(b@.take(list_from as int) =~= part(b@, 0, colon + 1));
                assert(b@.take(e1 as int + 1) =~= part(b@, 0, e1 + 1));
            }
            let ghost list = crate::model::expand_part(
                cmds,
                vars,
                b@.subrange(list_from as int, n as int),
                b@.len(),
                base + byte_len(b@.take(list_from as int)),
            );
            let list_text = cfg.process_part(engine, issues, &b, &offsets, list_from, n);
            let items = crate::for_loop::items_of(list_text.as_str());
            let ghost item_views = crate::model::list_items(list.text);
            let name_string = string_of(&name);
            let saved = engine.vars.remove(name_string.as_str());
            let expr = string_of(&slice_of(&b, e1 + 1, colon));
            proof {
                lemma_byte_len_subrange(b@, e1 as int + 1, colon as int);
                lemma_byte_len_subrange(b@, colon as int, b@.len() as int);
                assert(expr@ == part(config@, e1 + 1, config@.len() as int));
            }
            let at = Span { start: offsets[e1 + 1], len: offsets[colon] - offsets[e1 + 1] };
            let ghost keyed = sort_keys(
                cmds,
                list.vars.remove(name@),
                expr@,
                b@.len(),
                base + byte_len(b@.take(e1 as int + 1)),
                name@,
                item_views,
                0,
            );
            let ghost keys = keyed.keys;
            let sorted_items = sort_items(
                &cfg,
                engine,
                issues,
                &name_string,
                &expr,
                at,
                items,
                descending,
            );
            proof {
                lemma_within_weaken(list.issues, cfg.body_span.end_pos(), bound);
                lemma_within_weaken(keyed.issues, cfg.body_span.end_pos(), bound);
                lemma_within_concat(list.issues, keyed.issues, bound);
                assert(views(issues@) =~= views(old(issues)@) + (list.issues + keyed.issues));
            }
            match saved {
                Some(v) => {
                    engine.vars.insert(name_string, v);
                },
                None => {
                    engine.vars.remove(name_string.as_str());
                },
            }
            let ghost goal = sorted_by_key(keys, item_views, descending);
            let mut out: Vec<char> = Vec::new();
            let mut i: usize = 0;
            proof {
                assert(goal == texts(sorted_items@));
                assert(goal.len() == sorted_items@.len());
            }
            while i < sorted_items.len()
                invariant
                    i <= sorted_items.len(),
                    goal == texts(sorted_items@),
                    out@ == join_with(
                        goal.map_values(|s: Seq<char>| reescape_colons(s)).take(i as int),
                        ':',
                    ),
                decreases sorted_items.len() - i,
            {
                let ghost mapped = goal.map_values(|s: Seq<char>| reescape_colons(s));
                proof {
                    assert(mapped.take(i as int + 1).drop_last() =~= mapped.take(i as int));
                    assert(goal[i as int] == sorted_items@[i as int]@);
                    assert(mapped.take(i as int + 1).last() == reescape_colons(
                        sorted_items@[i as int]@,
                    ));
                }
                if i > 0 {
                    out.push(':');
                }
                let entry = reescape_colons_of(&chars_of(sorted_items[i].as_str()));
                push_all(&mut out, &entry);
                proof {
                    if i == 0 {
                        assert(Seq::<char>::empty() + entry@ =~= entry@);
                        assert(mapped.take(1)[0] == entry@);
                    }
                }
                i += 1;
            }
            proof {
                let mapped = goal.map_values(|s: Seq<char>| reescape_colons(s));
                assert(mapped.take(mapped.len() as int) =~= mapped);
            }
            string_of(&out)
        },
    }
}

} // verus!
