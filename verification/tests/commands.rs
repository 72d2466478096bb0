use ppm::for_loop::ForConfig;
use ppm::lsdir::{matches_any, LsdirConfig};
use ppm::predefined_commands::{
    eval_handler, fallback_handler, get_all_handlers, get_var_handler, literal_handler,
    set_var_handler,
};
use ppm::{CommandConfig, CommandHandler, Engine, Issue, Span, VarTable};
use std::path::PathBuf;

fn config(body: &str, at: usize) -> CommandConfig {
    CommandConfig {
        body: body.to_string(),
        body_span: Span::new(at, body.len()),
        cmd_span: Span::new(at - 2, body.len() + 4),
    }
}

fn engine() -> Engine {
    Engine::with_predefined_commands(VarTable::new())
}

#[test]
fn predefined_commands_are_known_by_name() {
    let names: Vec<(String, CommandHandler)> = get_all_handlers();
    assert_eq!(
        names,
        vec![
            ("lit".to_string(), CommandHandler::Literal),
            ("eval".to_string(), CommandHandler::Eval),
            ("".to_string(), CommandHandler::GetVar),
            ("var".to_string(), CommandHandler::GetVar),
            ("let".to_string(), CommandHandler::SetVar),
            ("run".to_string(), CommandHandler::Run),
            ("alt".to_string(), CommandHandler::Fallback),
            ("sort_by".to_string(), CommandHandler::SortBy),
            ("lsdir".to_string(), CommandHandler::Lsdir),
            ("for".to_string(), CommandHandler::For),
        ]
    );
    let en = engine();
    for (name, handler) in names {
        assert_eq!(en.handler_of(&name), Some(handler));
    }
    assert_eq!(en.handler_of("include"), None);
    assert_eq!(Engine::new(VarTable::new()).handler_of("lit"), None);
}

#[test]
fn root_path_is_set_and_unset() {
    let en = engine();
    assert_eq!(en.root_path, None);
    let en = en.with_root_path(PathBuf::from("/tmp"));
    assert_eq!(en.root_path, Some(PathBuf::from("/tmp")));
    assert_eq!(en.handler_of("lit"), Some(CommandHandler::Literal));
    let en = en.without_root_path();
    assert_eq!(en.root_path, None);
}

#[test]
fn issues_of_a_command_have_its_spans() {
    let cfg = config("body", 10);
    assert_eq!(
        cfg.missing_args("nothing given"),
        Issue { id: "command:missing_args", msg: "nothing given".to_string(), span: Span::new(8, 8) }
    );
    assert_eq!(
        cfg.invalid_args("bad".to_string()),
        Issue { id: "command:invalid_args", msg: "bad".to_string(), span: Span::new(10, 4) }
    );
    let mut issues = vec![];
    cfg.push_missing_args(&mut issues, "a");
    cfg.push_invalid_args(&mut issues, "b".to_string());
    assert_eq!(issues, vec![cfg.missing_args("a"), cfg.invalid_args("b".to_string())]);
}

#[test]
fn process_moves_issues_to_the_body() {
    let cfg = config("0123456789", 20);
    let mut en = engine();
    let mut issues = vec![];
    let out = cfg.process(&mut en, &mut issues, "a(%x%)".to_string());
    assert_eq!(&out, "a");
    assert_eq!(
        issues,
        vec![Issue {
            id: "command:invalid_args",
            msg: "unknown variable: x".to_string(),
            span: Span::new(23, 1)
        }]
    );
}

#[test]
fn process_takes_any_text_whose_issues_fit() {
    let cfg = config("0123", 20);
    let mut en = engine();
    let mut issues = vec![];
    let out = cfg.process(&mut en, &mut issues, "(%x%) and a long text behind it".to_string());
    assert_eq!(&out, " and a long text behind it");
    assert_eq!(
        issues,
        vec![Issue {
            id: "command:invalid_args",
            msg: "unknown variable: x".to_string(),
            span: Span::new(22, 1)
        }]
    );
}

#[test]
fn process_body_replaces_the_body() {
    let mut cfg = config("(%lit a%)b(%q%)", 5);
    let mut en = engine();
    let mut issues = vec![];
    assert_eq!(cfg.process_body(&mut en, &mut issues), "ab");
    assert_eq!(cfg.body, "ab");
    assert_eq!(cfg.body_span, Span::new(5, 15));
    assert_eq!(cfg.cmd_span, Span::new(3, 19));
    assert_eq!(
        issues,
        vec![Issue {
            id: "command:invalid_args",
            msg: "unknown variable: q".to_string(),
            span: Span::new(17, 1)
        }]
    );
}

#[test]
fn process_subbody_needs_a_span_inside_the_body() {
    let cfg = config("0123456789", 20);
    let mut en = engine();
    let mut issues = vec![];
    let out = cfg.process_subbody(&mut en, &mut issues, "(%y%)".to_string(), Span::new(4, 5));
    assert_eq!(out, Some(String::new()));
    assert_eq!(
        issues,
        vec![Issue {
            id: "command:invalid_args",
            msg: "unknown variable: y".to_string(),
            span: Span::new(26, 1)
        }]
    );
    let out = cfg.process_subbody(&mut en, &mut issues, "(%let z=1%)".to_string(), Span::new(0, 11));
    assert_eq!(out, None);
    assert_eq!(issues.len(), 1);
    assert_eq!(en.vars.get("z"), Some("1".to_string()));
}

#[test]
fn handlers_are_called_with_a_body() {
    let mut en = engine();
    let mut issues = vec![];
    assert_eq!(literal_handler(config("(%x%)", 2), &mut en, &mut issues), "(%x%)");
    assert_eq!(set_var_handler(config("x=a\\=b=c", 2), &mut en, &mut issues), "");
    assert_eq!(en.vars.get("x"), Some("a=b".to_string()));
    assert_eq!(eval_handler(config("<(%x%)>", 2), &mut en, &mut issues), "<a=b>");
    assert_eq!(get_var_handler(config("x", 2), &mut en, &mut issues), "a=b");
    assert_eq!(fallback_handler(config(":(%x%):c", 2), &mut en, &mut issues), "a=b");
    assert_eq!(en.invoke(CommandHandler::GetVar, config("(%lit x%)", 2), &mut issues), "a=b");
    assert_eq!(issues, vec![]);
    assert_eq!(get_var_handler(config("y", 2), &mut en, &mut issues), "");
    assert_eq!(
        issues,
        vec![Issue {
            id: "command:invalid_args",
            msg: "unknown variable: y".to_string(),
            span: Span::new(2, 1)
        }]
    );
}

#[test]
fn loop_configuration_is_read() {
    let mut en = engine();
    let mut issues = vec![];
    let r = ForConfig::new(&config("i from 2 to 4;body;more", 6), &mut en, &mut issues);
    assert_eq!(
        r,
        Ok(("i".to_string(), ForConfig::Range(2, 4), "body;more".to_string(), Span::new(14, 9)))
    );
    let r = ForConfig::new(&config("né in  a:\\:b:;ü", 6), &mut en, &mut issues);
    assert_eq!(
        r,
        Ok((
            "né".to_string(),
            ForConfig::List(vec!["a".to_string(), ":b".to_string(), "".to_string()]),
            "ü".to_string(),
            Span::new(15, 2)
        ))
    );
    let r = ForConfig::new(&config("x in", 6), &mut en, &mut issues);
    assert_eq!(r, Ok(("x".to_string(), ForConfig::List(vec![]), "".to_string(), Span::new(4, 0))));
    assert_eq!(issues, vec![]);
    let r = ForConfig::new(&config("x from (%q%) to 4;b", 6), &mut en, &mut issues);
    assert_eq!(
        r,
        Err(Issue {
            id: "command:invalid_args",
            msg: "invalid starting integer: ".to_string(),
            span: Span::new(6, 19)
        })
    );
    assert_eq!(
        issues,
        vec![Issue {
            id: "command:invalid_args",
            msg: "unknown variable: q".to_string(),
            span: Span::new(15, 1)
        }]
    );
}

#[test]
fn listing_configuration_is_read() {
    let mut en = engine();
    let mut issues = vec![];
    let r = LsdirConfig::new(
        config("dir\\:x:exclude_names a b\\ c:include_only_names *.rs:exclude_names d:odd x:y", 2),
        &mut en,
        &mut issues,
    );
    let cfg = LsdirConfig {
        path: "dir:x".to_string(),
        exclude_by_name: vec!["a".to_string(), "b c".to_string(), "d".to_string()],
        include_only_by_name: Some(vec!["*.rs".to_string()]),
    };
    assert_eq!(r, Ok(cfg.clone()));
    assert_eq!(
        issues,
        vec![Issue {
            id: "command:invalid_args:partial",
            msg: "warning: ignoring unrecognised verb `odd`".to_string(),
            span: Span::new(0, 79)
        }]
    );
    assert!(cfg.is_included(None));
    assert!(cfg.is_included(Some("x.rs")));
    assert!(!cfg.is_included(Some("x.txt")));
    assert!(cfg.is_included(Some("a.rs")));
    assert!(!cfg.is_included(Some("b c")));
    let some = LsdirConfig {
        path: String::new(),
        exclude_by_name: vec!["a.rs".to_string(), "*.md".to_string()],
        include_only_by_name: Some(vec!["*.rs".to_string(), "*.md".to_string()]),
    };
    assert!(some.is_included(Some("b.rs")));
    assert!(!some.is_included(Some("a.rs")));
    assert!(!some.is_included(Some("b.md")));
    assert!(!some.is_included(Some("b.txt")));
    let all = LsdirConfig { path: String::new(), exclude_by_name: vec![], include_only_by_name: None };
    assert!(all.is_included(Some("anything")));
    let none = LsdirConfig {
        path: String::new(),
        exclude_by_name: vec![],
        include_only_by_name: Some(vec![]),
    };
    assert!(!none.is_included(Some("anything")));
    assert!(matches_any("x.rs", &vec!["*.md".to_string(), "*.rs".to_string()]));
    assert!(!matches_any("x.rs", &vec![]));
}
