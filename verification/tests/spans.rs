use ppm::parser::{find_name_end, push_literal, scan_segments, Segment, SegmentKind};
use ppm::span::position_of_offset;
use ppm::tools::{cut_args, find_sep, split_args_with_len, splitn_args_with_len};
use ppm::{absorb_new_issues, parse_commands, Issue, RowCol, SourceAtom, Span};

fn chars(s: &str) -> Vec<char> {
    s.chars().collect()
}

fn seg(kind: SegmentKind, start: usize, end: usize) -> Segment {
    Segment { kind, start, end }
}

#[test]
fn span_basics() {
    let s = Span::new(3, 4);
    assert_eq!(s, Span { start: 3, len: 4 });
    assert_eq!(s.end(), 7);
    assert_eq!(Span::empty(), Span { start: 0, len: 0 });
    assert_eq!(Span::default(), Span::empty());
    assert_eq!(s.with_length(9), Span::new(3, 9));
    assert_eq!(s.index_str("0123456789"), "3456");
    assert_eq!(Span::new(1, 5).index_str("aé€b"), "é€");
    let mut t = Span::new(3, 4);
    t.shift_start_forward(3);
    assert_eq!(t, Span::new(6, 1));
    assert_eq!(t.end(), 7);
}

#[test]
fn span_relative_to_its_parent() {
    let parent = Span::new(10, 5);
    assert_eq!(Span::new(1, 2).relative_to(&parent), Some(Span::new(11, 2)));
    assert_eq!(Span::new(0, 5).relative_to(&parent), Some(Span::new(10, 5)));
    assert_eq!(Span::new(5, 0).relative_to(&parent), Some(Span::new(15, 0)));
    assert_eq!(Span::new(1, 5).relative_to(&parent), None);
    assert_eq!(Span::new(6, 0).relative_to(&parent), None);
    assert_eq!(Span::new(usize::MAX, 1).relative_to(&parent), None);
    assert_eq!(Span::new(1, usize::MAX).relative_to(&parent), None);
}

#[test]
fn row_and_column_of_an_index() {
    let s = "ab\ncd\n\nef";
    assert_eq!(RowCol::from_index(0, s), RowCol { row: 0, col: 0 });
    assert_eq!(RowCol::from_index(2, s), RowCol { row: 0, col: 2 });
    assert_eq!(RowCol::from_index(3, s), RowCol { row: 1, col: 0 });
    assert_eq!(RowCol::from_index(6, s), RowCol { row: 2, col: 0 });
    assert_eq!(RowCol::from_index(7, s), RowCol { row: 3, col: 0 });
    assert_eq!(RowCol::from_index(9, s), RowCol { row: 3, col: 2 });
    assert_eq!(RowCol::from_index(5, "é€\nx"), RowCol { row: 0, col: 2 });
    assert_eq!(RowCol::from_index(7, "é€\nx"), RowCol { row: 1, col: 1 });
    assert_eq!(RowCol::at_position(&chars("é€\nx"), 4), RowCol { row: 1, col: 1 });
    assert_eq!(RowCol { row: 0, col: 3 }.to_string(), "1:4");
    assert_eq!(RowCol { row: 11, col: 0 }.to_string(), "12:1");
    assert_eq!(position_of_offset(&chars("é€\nx"), 5), 2);
    assert_eq!(
        Span::new(3, 4).start_end_loc(s),
        (RowCol { row: 1, col: 0 }, RowCol { row: 3, col: 0 })
    );
}

#[test]
fn index_of_a_row_and_column() {
    let s = "ab\ncd\n\nef";
    assert_eq!(RowCol { row: 0, col: 1 }.to_index(s), 1);
    assert_eq!(RowCol { row: 1, col: 1 }.to_index(s), 3);
    assert_eq!(RowCol { row: 2, col: 0 }.to_index(s), 4);
    assert_eq!(RowCol { row: 9, col: 2 }.to_index(s), 8);
    assert_eq!(RowCol { row: 1, col: 0 }.to_index("é€\nx"), 5);
}

#[test]
fn issues_are_absorbed_with_their_span_moved() {
    let mut issues = vec![Issue { id: "a", msg: "first".to_string(), span: Span::new(1, 1) }];
    let new_issues = vec![
        Issue { id: "b", msg: "second".to_string(), span: Span::new(0, 2) },
        Issue { id: "c", msg: "third".to_string(), span: Span::new(3, 1) },
    ];
    absorb_new_issues(&mut issues, Span::new(10, 4), new_issues);
    assert_eq!(
        issues,
        vec![
            Issue { id: "a", msg: "first".to_string(), span: Span::new(1, 1) },
            Issue { id: "b", msg: "second".to_string(), span: Span::new(10, 2) },
            Issue { id: "c", msg: "third".to_string(), span: Span::new(13, 1) },
        ]
    );
}

#[test]
fn issue_is_shown_with_positions() {
    let issue = Issue { id: "x:y", msg: "something".to_string(), span: Span::new(4, 3) };
    assert_eq!(issue.display("ab\ncdefg").to_string(), "[x:y at 2:2...2:5] something");
    let e = Issue::io_error("gone", Span::new(1, 2), Some("while reading"));
    assert_eq!(
        e,
        Issue { id: "io_error", msg: "IO Error while reading: gone".to_string(), span: Span::new(1, 2) }
    );
    let e = Issue::io_error("gone", Span::new(1, 2), None);
    assert_eq!(e.msg, "IO Error: gone");
}

#[test]
fn segments_of_a_source() {
    assert_eq!(scan_segments(&chars("")), vec![seg(SegmentKind::Literal, 0, 0)]);
    assert_eq!(scan_segments(&chars("abc")), vec![seg(SegmentKind::Literal, 0, 3)]);
    assert_eq!(
        scan_segments(&chars("a(%b%)c")),
        vec![
            seg(SegmentKind::Literal, 0, 1),
            seg(SegmentKind::Command, 3, 4),
            seg(SegmentKind::Literal, 6, 7)
        ]
    );
    assert_eq!(
        scan_segments(&chars("(%a (%b (%c%)%) d%)")),
        vec![
            seg(SegmentKind::Literal, 0, 0),
            seg(SegmentKind::Command, 2, 17),
            seg(SegmentKind::Literal, 19, 19)
        ]
    );
    assert_eq!(
        scan_segments(&chars("a%)b(%c")),
        vec![
            seg(SegmentKind::Literal, 0, 1),
            seg(SegmentKind::StrayClose, 1, 3),
            seg(SegmentKind::Literal, 3, 4),
            seg(SegmentKind::OpenCommand, 6, 7)
        ]
    );
    assert_eq!(
        scan_segments(&chars("a\\(%b(%c\\%)d%)")),
        vec![
            seg(SegmentKind::Literal, 0, 5),
            seg(SegmentKind::Command, 7, 12),
            seg(SegmentKind::Literal, 14, 14)
        ]
    );
    assert_eq!(
        scan_segments(&chars("(%")),
        vec![seg(SegmentKind::Literal, 0, 0), seg(SegmentKind::OpenCommand, 2, 2)]
    );
}

#[test]
fn atoms_of_a_source() {
    let mut issues = vec![];
    let atoms = parse_commands("abc(%x (%y%) z%)d%)e(%f".to_string(), &mut issues);
    assert_eq!(
        atoms,
        vec![
            SourceAtom::Str("abc".to_string()),
            SourceAtom::Command("x (%y%) z".to_string()),
            SourceAtom::Str("d".to_string()),
            SourceAtom::Str("e".to_string()),
            SourceAtom::Command("f".to_string()),
        ]
    );
    assert_eq!(
        issues,
        vec![
            Issue {
                id: "command:unmatched_closing_delim",
                msg: "Unmatched '%)'".to_string(),
                span: Span::new(17, 2)
            },
            Issue { id: "command:no_end", msg: "Command has no end".to_string(), span: Span::new(22, 1) },
        ]
    );
}

#[test]
fn nested_command_is_one_atom() {
    let mut issues = vec![];
    let atoms = parse_commands("(%outer a (%inner b%) c (%x (%y%)%)%)".to_string(), &mut issues);
    assert_eq!(atoms, vec![SourceAtom::Command("outer a (%inner b%) c (%x (%y%)%)".to_string())]);
    assert_eq!(issues, vec![]);
}

#[test]
fn literal_text_loses_the_escapes_of_delimiters() {
    let src = chars("a\\(%b\\%)c\\d\\");
    let mut out = vec!['>'];
    push_literal(&mut out, &src, 0, src.len());
    assert_eq!(out, chars(">a(%b%)c\\d\\"));
    let mut out = vec![];
    push_literal(&mut out, &src, 1, 3);
    assert_eq!(out, chars("("));
}

#[test]
fn name_of_a_command_ends_at_white_space() {
    let src = chars("(%na\\ me arg%)");
    assert_eq!(find_name_end(&src, 2, 12), 8);
    let src = chars("name");
    assert_eq!(find_name_end(&src, 0, 4), 4);
    let src = chars("a\tb");
    assert_eq!(find_name_end(&src, 0, 3), 1);
}

#[test]
fn separators_outside_nested_commands() {
    let s = chars("a b(%c d%) e\\ f g");
    assert_eq!(find_sep(&s, ' ', 0), 1);
    assert_eq!(find_sep(&s, ' ', 2), 10);
    assert_eq!(find_sep(&s, ' ', 11), 15);
    assert_eq!(find_sep(&s, ' ', 16), 17);
    assert_eq!(find_sep(&s, ';', 0), 17);
    let pieces: Vec<String> = cut_args(&s, ' ').iter().map(|p| p.iter().collect()).collect();
    assert_eq!(pieces, vec!["a", "b(%c d%)", "e\\ f", "g"]);
}

#[test]
fn arguments_with_their_lengths() {
    let s = "abc:def(%cmd 1:2:3%):\\(%:\\:héya".to_string();
    assert_eq!(
        split_args_with_len(s.clone()),
        vec![
            ("abc".to_string(), 3),
            ("def(%cmd 1:2:3%)".to_string(), 16),
            ("\\(%".to_string(), 3),
            (":héya".to_string(), 7),
        ]
    );
    assert_eq!(
        splitn_args_with_len(3, s.clone()),
        vec![("abc".to_string(), 3), ("def(%cmd 1:2:3%)".to_string(), 16), ("\\(%:\\:héya".to_string(), 11)]
    );
    assert_eq!(
        splitn_args_with_len(4, "a\\:b:c".to_string()),
        vec![("a\\:b".to_string(), 4), ("c".to_string(), 1)]
    );
    assert_eq!(splitn_args_with_len(0, s), vec![]);
    assert_eq!(split_args_with_len("\\:a".to_string()), vec![(":a".to_string(), 3)]);
    assert_eq!(ppm::tools::split_args("\\:a:\\:b".to_string()), vec!["\\:a", ":b"]);
    assert_eq!(ppm::tools::splitn_args(0, "a".to_string()), Vec::<String>::new());
    assert_eq!(ppm::tools::splitn_args(2, "a\\:b:c".to_string()), vec!["a\\:b", "c"]);
    assert_eq!(ppm::tools::splitn_args(2, "a\\:b:c:d".to_string()), vec!["a:b", "c:d"]);
}
