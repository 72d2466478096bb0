use ppm::{Engine, Issue, Span, VarTable};

#[test]
fn test_vars() {
    let s = "abc(%var1%)def(%var2%)ghi";
    let mut vars = VarTable::new();
    vars.insert("var1".to_string(), "1".to_string());
    vars.insert("var2".to_string(), "2".to_string());
    let mut en = Engine::with_predefined_commands(vars);
    let (s, i) = en.process_new(s.to_string());
    assert_eq!(i, vec![]);
    assert_eq!(&s, "abc1def2ghi");
}

#[test]
fn test_alt() {
    let s = "(%alt :::a%)(%alt ::a:b:c%)";
    let vars = VarTable::new();
    let mut en = Engine::with_predefined_commands(vars);
    let (s, i) = en.process_new(s.to_string());
    assert_eq!(i, vec![]);
    assert_eq!(&s, "aa");
}

#[test]
fn test_lit() {
    let s = "(%lit (%alt abcs%)%)";
    let vars = VarTable::new();
    let mut en = Engine::with_predefined_commands(vars);
    let (s, i) = en.process_new(s.to_string());
    assert_eq!(i, vec![]);
    assert_eq!(&s, "(%alt abcs%)");
}

#[test]
fn test_invalid() {
    let s = "abc(%invalid abc%)lsdfga7vyev(%lit%)sd";
    let vars = VarTable::new();
    let mut en = Engine::with_predefined_commands(vars);
    let (s, i) = en.process_new(s.to_string());
    assert_eq!(
        i,
        vec![Issue {
            id: "command:unknown",
            msg: "invalid or unknown command at 1:4 (starting with `(%invalid ab`)".to_string(),
            span: Span::new(3, 15)
        }]
    );
    assert_eq!(&s, "abclsdfga7vyevsd");
}

#[test]
fn test_unknown_var() {
    let s = "abc(%unknown%)";
    let vars = VarTable::new();
    let mut en = Engine::with_predefined_commands(vars);
    let (s, i) = en.process_new(s.to_string());
    assert_eq!(
        i,
        vec![Issue {
            id: "command:invalid_args",
            msg: "unknown variable: unknown".to_string(),
            span: Span::new(5, 7)
        }]
    );
    assert_eq!(&s, "abc");
}

#[test]
fn test_for_range() {
    let s = "(%for i from 1 to 10;(%i%)%)";
    let vars = VarTable::new();
    let mut en = Engine::with_predefined_commands(vars);
    let (s, i) = en.process_new(s.to_string());
    assert_eq!(i, vec![]);
    assert_eq!(&s, "12345678910");
}

#[test]
fn test_for_in() {
    let s = "(%for i in a:b:c;(%i%)%)";
    let vars = VarTable::new();
    let mut en = Engine::with_predefined_commands(vars);
    let (s, i) = en.process_new(s.to_string());
    assert_eq!(i, vec![]);
    assert_eq!(&s, "abc");
}

#[test]
fn test_for_in_sorted() {
    let s = "(%for i in.sorted((%i%):-)a:b:c;(%i%)%)";
    let vars = VarTable::new();
    let mut en = Engine::with_predefined_commands(vars);
    let (s, i) = en.process_new(s.to_string());
    assert_eq!(i, vec![]);
    assert_eq!(&s, "cba");
}

fn expand(source: &str) -> (String, Vec<Issue>) {
    let mut en = Engine::with_predefined_commands(VarTable::new());
    en.process_new(source.to_string())
}

fn issue(id: &'static str, msg: &str, start: usize, len: usize) -> Issue {
    Issue { id, msg: msg.to_string(), span: Span::new(start, len) }
}

#[test]
fn round_trip_of_plain_text() {
    let (s, i) = expand("hello world\nsecond (line) with 100% text\\");
    assert_eq!(i, vec![]);
    assert_eq!(&s, "hello world\nsecond (line) with 100% text\\");
}

#[test]
fn round_trip_of_empty_text() {
    let (s, i) = expand("");
    assert_eq!(i, vec![]);
    assert_eq!(&s, "");
}

#[test]
fn escaped_delimiters_are_text() {
    let (s, i) = expand("a\\(%b\\%)c");
    assert_eq!(i, vec![]);
    assert_eq!(&s, "a(%b%)c");
}

#[test]
fn other_backslashes_stay() {
    let (s, i) = expand("a\\b\\\\c\\(d\\%e");
    assert_eq!(i, vec![]);
    assert_eq!(&s, "a\\b\\\\c\\(d\\%e");
}

#[test]
fn nested_command_is_expanded_as_one() {
    let (s, i) = expand("<(%eval a(%lit b%)c%)>");
    assert_eq!(i, vec![]);
    assert_eq!(&s, "<abc>");
}

#[test]
fn literal_keeps_escapes_and_delimiters() {
    let (s, i) = expand("(%lit a\\(%b (%x%)%)");
    assert_eq!(i, vec![]);
    assert_eq!(&s, "a\\(%b (%x%)");
}

#[test]
fn unmatched_closing_delimiter_is_dropped() {
    let (s, i) = expand("ab%)cd");
    assert_eq!(i, vec![issue("command:unmatched_closing_delim", "Unmatched '%)'", 2, 2)]);
    assert_eq!(&s, "abcd");
}

#[test]
fn unmatched_closing_delimiter_behind_a_command() {
    let (s, i) = expand("abc(%lit x%)def%)g");
    assert_eq!(i, vec![issue("command:unmatched_closing_delim", "Unmatched '%)'", 15, 2)]);
    assert_eq!(&s, "abcxdefg");
}

#[test]
fn command_without_end_is_still_run() {
    let (s, i) = expand("ab(%lit xyz");
    assert_eq!(i, vec![issue("command:no_end", "Command has no end", 4, 7)]);
    assert_eq!(&s, "abxyz");
}

#[test]
fn unknown_command_without_fallback() {
    let mut en = Engine::new(VarTable::new());
    assert_eq!(en.add_command("lit", ppm::CommandHandler::Literal), Ok(None));
    let (s, i) = en.process_new("abc(%invalid%)def(%lit x%)".to_string());
    assert_eq!(
        i,
        vec![issue(
            "command:unknown",
            "invalid or unknown command at 1:4 (starting with `(%invalid`)",
            3,
            11
        )]
    );
    assert_eq!(&s, "abcdefx");
}

#[test]
fn unknown_command_on_a_later_line() {
    let mut en = Engine::new(VarTable::new());
    let (s, i) = en.process_new("a\nbc(%a_long_command_name x%)".to_string());
    assert_eq!(
        i,
        vec![issue(
            "command:unknown",
            "invalid or unknown command at 2:3 (starting with `(%a_long_com`)",
            4,
            25
        )]
    );
    assert_eq!(&s, "a\nbc");
}

#[test]
fn escaped_characters_in_a_command_name() {
    let mut en = Engine::new(VarTable::new());
    assert_eq!(en.add_command("lit", ppm::CommandHandler::Literal), Ok(None));
    let (s, i) = en.process_new("(%l\\it a%)".to_string());
    assert_eq!(
        i,
        vec![issue(
            "command:unknown",
            "invalid or unknown command at 1:1 (starting with `(%l\\it a`)",
            0,
            10
        )]
    );
    assert_eq!(&s, "");
}

#[test]
fn fallback_with_all_alternatives_empty() {
    let (s, i) = expand("(%alt :::%)");
    assert_eq!(i, vec![]);
    assert_eq!(&s, "");
}

#[test]
fn fallback_unescapes_colons_only() {
    let (s, i) = expand("(%alt :\\:a\\b:c%)");
    assert_eq!(i, vec![]);
    assert_eq!(&s, ":a\\b");
}

#[test]
fn let_sets_and_var_gets() {
    let (s, i) = expand("(%let x=5%)(%x%)(%var x%)(%let y%)[(%y%)]");
    assert_eq!(i, vec![]);
    assert_eq!(&s, "55[]");
}

#[test]
fn value_of_a_variable_is_not_expanded() {
    let mut vars = VarTable::new();
    vars.insert("t".to_string(), "(%lit hi%)".to_string());
    let mut en = Engine::with_predefined_commands(vars);
    let (s, i) = en.process_new("(%eval (%t%)%)".to_string());
    assert_eq!(i, vec![]);
    assert_eq!(&s, "(%lit hi%)");
}

#[test]
fn issues_in_a_loop_are_reported_in_place() {
    let source = "line1\n(%for i in a:b;x(%nope%)y%)";
    let (s, i) = expand(source);
    assert_eq!(
        i,
        vec![
            issue("command:invalid_args", "unknown variable: nope", 24, 4),
            issue("command:invalid_args", "unknown variable: nope", 24, 4),
        ]
    );
    assert_eq!(&s, "line1\nxyxy");
    assert_eq!(ppm::Span::new(24, 4).index_str(source), "nope");
    assert_eq!(
        i[1].display(source).to_string(),
        "[command:invalid_args at 2:19...2:23] unknown variable: nope"
    );
}

#[test]
fn issues_in_an_evaluated_body_are_moved() {
    let (_, inner) = expand("a(%nope%)");
    let (_, outer) = expand("(%eval a(%nope%)%)");
    assert_eq!(inner, vec![issue("command:invalid_args", "unknown variable: nope", 3, 4)]);
    assert_eq!(outer, vec![issue("command:invalid_args", "unknown variable: nope", 10, 4)]);
}

#[test]
fn loop_variable_is_restored_when_bound() {
    let mut vars = VarTable::new();
    vars.insert("i".to_string(), "keep".to_string());
    let mut en = Engine::with_predefined_commands(vars);
    let (s, i) = en.process_new("(%for i in a:b;(%i%)%)(%i%)".to_string());
    assert_eq!(i, vec![]);
    assert_eq!(&s, "abkeep");
    assert_eq!(en.vars.get("i"), Some("keep".to_string()));
}

#[test]
fn loop_variable_is_removed_when_unbound() {
    let mut en = Engine::with_predefined_commands(VarTable::new());
    let (s, i) = en.process_new("(%for i from 1 to 3;(%i%)%)".to_string());
    assert_eq!(i, vec![]);
    assert_eq!(&s, "123");
    assert_eq!(en.vars.get("i"), None);
    assert_eq!(en.vars.len(), 0);
}

#[test]
fn empty_range_gives_nothing_and_restores() {
    let mut vars = VarTable::new();
    vars.insert("i".to_string(), "keep".to_string());
    let mut en = Engine::with_predefined_commands(vars);
    let (s, i) = en.process_new("(%for i from 3 to 1;x%)".to_string());
    assert_eq!(i, vec![]);
    assert_eq!(&s, "");
    assert_eq!(en.vars.get("i"), Some("keep".to_string()));
}

#[test]
fn empty_list_gives_nothing() {
    let (s, i) = expand("(%for i in ;x%)");
    assert_eq!(i, vec![]);
    assert_eq!(&s, "");
}

#[test]
fn range_with_negative_numbers() {
    let (s, i) = expand("(%for n from -2 to +1;[(%n%)]%)");
    assert_eq!(i, vec![]);
    assert_eq!(&s, "[-2][-1][0][1]");
}

#[test]
fn range_bounds_are_expanded() {
    let (s, i) = expand("(%let hi=3%)(%for n from 1 to (%hi%);(%n%)%)");
    assert_eq!(i, vec![]);
    assert_eq!(&s, "123");
}

#[test]
fn list_is_expanded_before_it_is_cut() {
    let (s, i) = expand("(%let l=x:y\\:z%)(%for n in (%l%);<(%n%)>%)");
    assert_eq!(i, vec![]);
    assert_eq!(&s, "<x><y:z>");
}

#[test]
fn nested_loops() {
    let (s, i) = expand("(%for a in 1:2;(%for b in x:y;(%a%)(%b%) %)%)");
    assert_eq!(i, vec![]);
    assert_eq!(&s, "1x 1y 2x 2y ");
}

#[test]
fn loop_without_kind() {
    let (s, i) = expand("(%for i%)");
    assert_eq!(i, vec![issue("command:missing_args", "no repeat kind given", 0, 9)]);
    assert_eq!(&s, "");
}

#[test]
fn loop_with_unknown_kind() {
    let (s, i) = expand("(%for i upto 3;x%)");
    assert_eq!(i, vec![issue("command:invalid_args", "unknown repeat kind: upto", 6, 10)]);
    assert_eq!(&s, "");
}

#[test]
fn loop_without_starting_integer() {
    let (_, i) = expand("(%for i from%)");
    assert_eq!(i, vec![issue("command:invalid_args", "no starting integer given", 6, 6)]);
}

#[test]
fn loop_with_invalid_starting_integer() {
    let (_, i) = expand("(%for i from x to 3;y%)");
    assert_eq!(i, vec![issue("command:invalid_args", "invalid starting integer: x", 6, 15)]);
}

#[test]
fn loop_without_range_end() {
    let (_, i) = expand("(%for i from 1%)");
    assert_eq!(i, vec![issue("command:invalid_args", "no range end given", 6, 8)]);
}

#[test]
fn loop_with_invalid_range_end() {
    let (_, i) = expand("(%for i from 1 til 3;y%)");
    assert_eq!(i, vec![issue("command:invalid_args", "invalid range end: til", 6, 16)]);
}

#[test]
fn loop_without_ending_integer() {
    let (_, i) = expand("(%for i from 1 to%)");
    assert_eq!(i, vec![issue("command:invalid_args", "no ending integer given", 6, 11)]);
}

#[test]
fn loop_with_invalid_ending_integer() {
    let (_, i) = expand("(%for i from 1 to 1e3;y%)");
    assert_eq!(i, vec![issue("command:invalid_args", "invalid ending integer: 1e3", 6, 17)]);
}

#[test]
fn loop_with_integer_out_of_range() {
    let (_, i) = expand("(%for i from 1 to 170141183460469231731687303715884105728;y%)");
    assert_eq!(
        i,
        vec![issue(
            "command:invalid_args",
            "invalid ending integer: 170141183460469231731687303715884105728",
            6,
            53
        )]
    );
}

#[test]
fn sort_by_ascending_and_descending() {
    let (s, i) = expand("(%sort_by i + (%i%):c:a:b%)|(%sort_by i desc (%i%):c:a:b%)");
    assert_eq!(i, vec![]);
    assert_eq!(&s, "a:b:c|c:b:a");
}

#[test]
fn sort_by_keeps_equal_keys_in_order() {
    let (s, i) = expand("(%sort_by i + k:c:a:b%)|(%sort_by i - k:c:a:b%)");
    assert_eq!(i, vec![]);
    assert_eq!(&s, "c:a:b|c:a:b");
}

#[test]
fn sort_by_restores_its_variable() {
    let mut vars = VarTable::new();
    vars.insert("i".to_string(), "keep".to_string());
    let mut en = Engine::with_predefined_commands(vars);
    let (s, i) = en.process_new("(%sort_by i + (%i%):b:\\:a%)(%i%)".to_string());
    assert_eq!(i, vec![]);
    assert_eq!(&s, "\\:a:bkeep");
}

#[test]
fn sort_by_without_order() {
    let (s, i) = expand("(%sort_by i:b:a%)");
    assert_eq!(
        i,
        vec![issue("command:invalid_args", "expected sorting order, got end of argument", 10, 5)]
    );
    assert_eq!(&s, "b:a");
}

#[test]
fn sort_by_with_invalid_order() {
    let (s, i) = expand("(%sort_by i up (%i%):b:a%)");
    assert_eq!(i, vec![issue("command:invalid_args", "invalid sorting order: up", 10, 14)]);
    assert_eq!(&s, "b:a");
}

#[test]
fn sort_by_without_expression() {
    let (s, i) = expand("(%sort_by i +:b:a%)");
    assert_eq!(i, vec![issue("command:invalid_args", "no map expression provided", 10, 7)]);
    assert_eq!(&s, "b:a");
}

#[test]
fn sort_by_without_list() {
    let (s, i) = expand("(%sort_by i + (%i%)%)");
    assert_eq!(i, vec![issue("command:invalid_args", "no list to sort provided", 10, 9)]);
    assert_eq!(&s, "");
}

#[test]
fn add_command_rejects_invalid_names() {
    let mut en = Engine::new(VarTable::new());
    assert_eq!(
        en.add_command("a b", ppm::CommandHandler::Literal),
        Err(ppm::InvalidCommandName("a b".to_string()))
    );
    assert_eq!(
        en.add_command("a%", ppm::CommandHandler::Literal),
        Err(ppm::InvalidCommandName("a%".to_string()))
    );
    assert_eq!(en.handler_of("a b"), None);
    assert!(!Engine::is_valid_command_name("{x}"));
    assert!(Engine::is_valid_command_name("x-y_z"));
    assert!(Engine::is_invalid_command_char('\t'));
    assert!(!Engine::is_invalid_command_char('\\'));
}

#[test]
fn add_command_shadows_and_gives_the_previous_handler() {
    let mut en = Engine::new(VarTable::new());
    assert_eq!(en.add_command("x", ppm::CommandHandler::Literal), Ok(None));
    assert_eq!(
        en.add_command("x", ppm::CommandHandler::Eval),
        Ok(Some(ppm::CommandHandler::Literal))
    );
    assert_eq!(en.handler_of("x"), Some(ppm::CommandHandler::Eval));
}

#[test]
fn add_commands_gives_the_invalid_names() {
    let mut en = Engine::new(VarTable::new());
    let r = en.add_commands(vec![
        ("ok".to_string(), ppm::CommandHandler::Literal),
        ("not ok".to_string(), ppm::CommandHandler::Literal),
        ("(".to_string(), ppm::CommandHandler::Eval),
    ]);
    assert_eq!(
        r,
        Err(vec![
            ppm::InvalidCommandName("not ok".to_string()),
            ppm::InvalidCommandName("(".to_string())
        ])
    );
    assert_eq!(en.handler_of("ok"), Some(ppm::CommandHandler::Literal));
}

#[test]
fn text_that_is_not_ascii() {
    let (s, i) = expand("é(%lit ü%)€(%nope%)");
    assert_eq!(i, vec![issue("command:invalid_args", "unknown variable: nope", 17, 4)]);
    assert_eq!(&s, "éü€");
}

#[test]
fn sorted_loop_takes_the_entries_in_order_of_their_keys() {
    let (s, i) = expand("(%let kb=1%)(%let ka=2%)(%let kc=0%)(%for i in.sorted((%k(%i%)%):asc)a:b:c;(%i%)%)");
    assert_eq!(i, vec![]);
    assert_eq!(&s, "cba");
    let (s, i) = expand("(%for i in.sorted((%i%))c:a:b;(%i%)%)");
    assert_eq!(i, vec![]);
    assert_eq!(&s, "abc");
    let (s, i) = expand("(%for i in.sorted(k:desc)c:a:b;(%i%)%)");
    assert_eq!(i, vec![]);
    assert_eq!(&s, "cab");
    let (s, i) = expand("(%for i in.sorted((%i%):+);x%)");
    assert_eq!(i, vec![]);
    assert_eq!(&s, "");
}

#[test]
fn sorted_loop_restores_its_variable() {
    let mut vars = VarTable::new();
    vars.insert("i".to_string(), "keep".to_string());
    let mut en = Engine::with_predefined_commands(vars);
    let (s, i) = en.process_new("(%for i in.sorted((%i%):-)a:b;(%i%)%)(%i%)".to_string());
    assert_eq!(i, vec![]);
    assert_eq!(&s, "bakeep");
}

#[test]
fn sorted_loop_reports_issues_of_the_key_in_place() {
    let (s, i) = expand("(%for i in.sorted((%q%):-)a:b;(%i%)%)");
    assert_eq!(
        i,
        vec![
            issue("command:invalid_args", "unknown variable: q", 20, 1),
            issue("command:invalid_args", "unknown variable: q", 20, 1),
        ]
    );
    assert_eq!(&s, "ab");
}

#[test]
fn sorted_loop_with_unknown_order() {
    let (s, i) = expand("(%for i in.sorted((%i%):up)a:b;(%i%)%)");
    assert_eq!(i, vec![issue("command:invalid_args:partial", "unknown sorting order: up", 0, 38)]);
    assert_eq!(&s, "");
}

#[test]
fn sort_by_of_an_empty_list() {
    let (s, i) = expand("(%sort_by i + (%i%):%)");
    assert_eq!(i, vec![]);
    assert_eq!(&s, "");
}
