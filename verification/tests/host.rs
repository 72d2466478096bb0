use ppm::{
    pending_requests, Engine, HostAnswer, HostAnswers, HostService, Issue, Span, VarTable,
};

fn engine_with(answers: HostAnswers) -> Engine {
    Engine::with_predefined_commands(VarTable::new()).with_answers(answers)
}

#[test]
fn run_asks_the_host_first() {
    let mut en = engine_with(HostAnswers::new());
    let (s, i) = en.process_new("a(%run echo hi%)b".to_string());
    assert_eq!(
        i,
        vec![Issue { id: "host:pending", msg: "run echo hi".to_string(), span: Span::new(1, 15) }]
    );
    assert_eq!(&s, "ab");
    let requests = pending_requests(&i);
    assert_eq!(requests.len(), 1);
    assert_eq!(requests[0].key, "run echo hi");
    assert_eq!(requests[0].service, HostService::Run);
    assert_eq!(requests[0].words, vec!["echo".to_string(), "hi".to_string()]);
}

#[test]
fn run_gives_what_the_host_answered() {
    let mut answers = HostAnswers::new();
    answers.insert(
        "run echo \"test 123\"456 789".to_string(),
        HostAnswer { text: "test 123456 789\n".to_string(), errors: vec![] },
    );
    let mut en = engine_with(answers);
    let (s, i) = en.process_new("(%run echo \"test 123\"456 789%)".to_string());
    assert_eq!(i, vec![]);
    assert_eq!(&s, "test 123456 789\n");
}

#[test]
fn run_reports_what_went_wrong() {
    let mut answers = HostAnswers::new();
    answers.insert(
        "run nothing".to_string(),
        HostAnswer { text: String::new(), errors: vec!["not found".to_string()] },
    );
    let mut en = engine_with(answers);
    let (s, i) = en.process_new("(%run nothing%)".to_string());
    assert_eq!(
        i,
        vec![Issue {
            id: "io_error",
            msg: "IO Error while trying to run process: not found".to_string(),
            span: Span::new(0, 15)
        }]
    );
    assert_eq!(&s, "");
}

#[test]
fn run_without_a_process() {
    let mut en = engine_with(HostAnswers::new());
    let (s, i) = en.process_new("(%run %)(%run%)".to_string());
    assert_eq!(
        i,
        vec![
            Issue {
                id: "command:missing_args",
                msg: "no process to run given".to_string(),
                span: Span::new(0, 8)
            },
            Issue {
                id: "command:missing_args",
                msg: "no process to run given".to_string(),
                span: Span::new(8, 7)
            }
        ]
    );
    assert_eq!(&s, "");
}

#[test]
fn include_gives_the_file_unexpanded() {
    let mut answers = HostAnswers::new();
    answers.insert(
        "include a.txt".to_string(),
        HostAnswer { text: "(%lit x%)".to_string(), errors: vec![] },
    );
    let mut en = engine_with(answers);
    assert_eq!(en.add_command("include", ppm::CommandHandler::Include), Ok(None));
    let (s, i) = en.process_new("(%include a.txt%)".to_string());
    assert_eq!(i, vec![]);
    assert_eq!(&s, "(%lit x%)");
}

#[test]
fn include_asks_for_the_expanded_path() {
    let mut vars = VarTable::new();
    vars.insert("name".to_string(), "b".to_string());
    let mut en = Engine::with_predefined_commands(vars);
    assert_eq!(en.add_command("include", ppm::CommandHandler::Include), Ok(None));
    let (_, i) = en.process_new("(%include (%name%).txt%)".to_string());
    let requests = pending_requests(&i);
    assert_eq!(requests.len(), 1);
    assert_eq!(requests[0].service, HostService::Include);
    assert_eq!(requests[0].words, vec!["b.txt".to_string()]);
    assert_eq!(requests[0].key, "include b.txt");
}

#[test]
fn lsdir_filters_the_entries() {
    let mut answers = HostAnswers::new();
    answers.insert(
        "lsdir /d".to_string(),
        HostAnswer {
            text: "a.txt:/d/a.txt:b.rs:/d/b.rs:c\\:d.txt:/d/c\\:d.txt".to_string(),
            errors: vec!["entry lost".to_string()],
        },
    );
    let mut en = engine_with(answers);
    let (s, i) = en.process_new("(%lsdir /d:exclude_names *.rs:frobnicate x:bare%)".to_string());
    assert_eq!(
        i,
        vec![
            Issue {
                id: "command:invalid_args:partial",
                msg: "warning: ignoring unrecognised verb `frobnicate`".to_string(),
                span: Span::new(0, 49)
            },
            Issue {
                id: "io_error",
                msg: "IO Error while trying to read the directory /d: entry lost".to_string(),
                span: Span::new(0, 49)
            }
        ]
    );
    assert_eq!(&s, "/d/a.txt:/d/c\\:d.txt");
}

#[test]
fn lsdir_lists_only_what_is_included() {
    let mut answers = HostAnswers::new();
    answers.insert(
        "lsdir .".to_string(),
        HostAnswer { text: "a.txt:./a.txt:b.rs:./b.rs:ab.rs:./ab.rs".to_string(), errors: vec![] },
    );
    let mut en = engine_with(answers);
    let (s, i) = en.process_new(
        "(%lsdir .:include_only_names *.rs *.md:exclude_names ab.rs *.txt%)".to_string(),
    );
    assert_eq!(i, vec![]);
    assert_eq!(&s, "./b.rs");
}

#[test]
fn lsdir_of_an_empty_directory() {
    let mut answers = HostAnswers::new();
    answers.insert("lsdir e".to_string(), HostAnswer { text: String::new(), errors: vec![] });
    let mut en = engine_with(answers);
    let (s, i) = en.process_new("(%lsdir e%)".to_string());
    assert_eq!(i, vec![]);
    assert_eq!(&s, "");
}

#[test]
fn requests_are_read_from_issues_only_where_pending() {
    let issues = vec![
        Issue { id: "io_error", msg: "run x".to_string(), span: Span::empty() },
        Issue { id: "host:pending", msg: "lsdir a b".to_string(), span: Span::empty() },
        Issue { id: "host:pending", msg: "unknown x".to_string(), span: Span::empty() },
        Issue { id: "host:pending", msg: "run".to_string(), span: Span::empty() },
    ];
    let requests = pending_requests(&issues);
    assert_eq!(requests.len(), 1);
    assert_eq!(requests[0].service, HostService::Lsdir);
    assert_eq!(requests[0].words, vec!["a b".to_string()]);
}

#[test]
fn answers_are_kept_by_request() {
    let mut answers = HostAnswers::new();
    assert!(!answers.contains_key("run x"));
    answers.insert("run x".to_string(), HostAnswer { text: "1".to_string(), errors: vec![] });
    answers.insert("run x".to_string(), HostAnswer { text: "2".to_string(), errors: vec![] });
    assert!(answers.contains_key("run x"));
    assert_eq!(answers.get("run x").map(|a| a.text.clone()), Some("2".to_string()));
    assert!(answers.get("run y").is_none());
}
