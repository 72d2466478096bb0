use ppm::{pending_requests, Engine, HostAnswer, HostAnswers, HostService, Issue, VarTable};

/// Stands in for the host: knows one program, `echo`, which prints its
/// arguments with a space between each two, and a line feed.
fn perform(words: &[String]) -> HostAnswer {
    if words[0] == "echo" {
        HostAnswer { text: format!("{}\n", words[1..].join(" ")), errors: vec![] }
    } else {
        HostAnswer { text: String::new(), errors: vec![format!("{}: not found", words[0])] }
    }
}

fn process_with_host(source: &str) -> (String, Vec<Issue>) {
    let mut answers = HostAnswers::new();
    let mut rounds = 0;
    loop {
        let mut en = Engine::with_predefined_commands(VarTable::new()).with_answers(answers);
        let (s, i) = en.process_new(source.to_string());
        let requests = pending_requests(&i);
        if requests.is_empty() {
            return (s, i);
        }
        rounds += 1;
        assert!(rounds < 10);
        answers = en.answers;
        for request in requests {
            assert_eq!(request.service, HostService::Run);
            let answer = perform(&request.words);
            answers.insert(request.key, answer);
        }
    }
}

#[test]
fn test_run() {
    let s = "(%run echo \"test 123\"456 789%)";
    let (s, i) = process_with_host(s);
    assert_eq!(i, vec![]);
    assert_eq!(&s, "test 123456 789\n");
}

#[test]
fn run_inside_a_loop_asks_once_for_each_command_line() {
    let (s, i) = process_with_host("(%for n in a:b:a;(%run echo <(%n%)>%)%)");
    assert_eq!(i, vec![]);
    assert_eq!(&s, "<a>\n<b>\n<a>\n");
}

#[test]
fn run_of_what_another_run_printed() {
    let (s, i) = process_with_host("(%run echo (%run echo x%)y%)");
    assert_eq!(i, vec![]);
    assert_eq!(&s, "x\ny\n");
}

#[test]
fn run_of_an_unknown_program() {
    let (s, i) = process_with_host("(%run frobnicate%)");
    assert_eq!(i.len(), 1);
    assert_eq!(i[0].id, "io_error");
    assert_eq!(i[0].msg, "IO Error while trying to run process: frobnicate: not found");
    assert_eq!(&s, "");
}
