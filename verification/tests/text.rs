use ppm::escape::{
    cut_pairs, escape_pairs, split_unescaped, splitn_unescaped, take_while_lvl_ge0,
    unescape_pairs, Restore, TakeWhileLevelGe0,
};
use ppm::number::{decimal_of, digits_of, parse_i128};
use ppm::shell_util::{head_tail, matches_pattern, split_args};
use ppm::sort::{sort_pairs, text_lt};
use ppm::text::{
    byte_len_of, byte_offsets, char_is_whitespace, char_width, chars_of, is_word, same_text,
    slice_of, string_of,
};

fn chars(s: &str) -> Vec<char> {
    s.chars().collect()
}

fn text(v: &[char]) -> String {
    v.iter().collect()
}

fn texts(v: Vec<Vec<char>>) -> Vec<String> {
    v.iter().map(|p| text(p)).collect()
}

#[test]
fn widths_are_those_of_utf8() {
    for c in ['a', '\u{7f}', '\u{80}', 'é', '\u{7ff}', '\u{800}', '€', '\u{ffff}', '\u{10000}', '😀']
    {
        assert_eq!(char_width(c), c.len_utf8());
    }
    assert_eq!(byte_len_of(&chars("aé€😀")), "aé€😀".len());
    assert_eq!(byte_len_of(&chars("aé€😀")), 10);
    assert_eq!(byte_offsets(&chars("aé€😀")), vec![0, 1, 3, 6, 10]);
    assert_eq!(byte_offsets(&chars("")), vec![0]);
}

#[test]
fn whitespace_is_that_of_unicode() {
    let mut c = 0u32;
    while c <= 0x3100 {
        if let Some(ch) = char::from_u32(c) {
            assert_eq!(char_is_whitespace(ch), ch.is_whitespace());
        }
        c += 1;
    }
    assert!(char_is_whitespace('\u{3000}'));
    assert!(!char_is_whitespace('\u{200b}'));
}

#[test]
fn strings_and_characters_convert() {
    assert_eq!(chars_of("aé€"), vec!['a', 'é', '€']);
    assert_eq!(string_of(&vec!['a', 'é', '€']), "aé€");
    assert_eq!(slice_of(&chars("hello"), 1, 3), chars("el"));
    assert_eq!(slice_of(&chars("hello"), 2, 2), chars(""));
    assert!(same_text(&chars("ab"), &chars("ab")));
    assert!(!same_text(&chars("ab"), &chars("ac")));
    assert!(!same_text(&chars("ab"), &chars("abc")));
    assert!(is_word(&chars("from"), "from"));
    assert!(!is_word(&chars("from"), "fro"));
}

#[test]
fn escape_pairs_marks_the_character_behind_a_backslash() {
    assert_eq!(
        escape_pairs(&chars("a\\bc"), '\\'),
        vec![(false, 'a'), (true, 'b'), (false, 'c')]
    );
    assert_eq!(escape_pairs(&chars("\\\\a"), '\\'), vec![(true, '\\'), (false, 'a')]);
    assert_eq!(escape_pairs(&chars("\\\\\\a"), '\\'), vec![(true, '\\'), (true, 'a')]);
    assert_eq!(escape_pairs(&chars(""), '\\'), vec![]);
}

#[test]
fn escape_character_at_the_end_stands_for_itself() {
    assert_eq!(escape_pairs(&chars("a\\"), '\\'), vec![(false, 'a'), (false, '\\')]);
    assert_eq!(escape_pairs(&chars("\\"), '\\'), vec![(false, '\\')]);
    assert_eq!(escape_pairs(&chars("a~"), '~'), vec![(false, 'a'), (false, '~')]);
}

#[test]
fn unescape_puts_back_what_it_is_asked_to() {
    let items = escape_pairs(&chars("\\a\\:\\\\\\ \\%x"), '\\');
    assert_eq!(text(&unescape_pairs(&items, Restore::All, '\\')), "\\a\\:\\\\\\ \\%x");
    assert_eq!(text(&unescape_pairs(&items, Restore::AllExcept(':'), '\\')), "\\a:\\\\\\ \\%x");
    assert_eq!(
        text(&unescape_pairs(&items, Restore::AllExceptTwo(':', '\\'), '\\')),
        "\\a:\\\\ \\%x"
    );
    assert_eq!(
        text(&unescape_pairs(&items, Restore::AllExceptCommandChars, '\\')),
        "\\a\\:\\\\ %x"
    );
    assert!(Restore::All.restores('x'));
    assert!(!Restore::AllExcept('x').restores('x'));
    assert!(Restore::AllExcept('x').restores('y'));
    assert!(!Restore::AllExceptCommandChars.restores('{'));
}

#[test]
fn take_while_level_stops_at_the_matching_close() {
    let items = escape_pairs(&chars("a(b)c\\)d)e)f"), '\\');
    let (group, next) = take_while_lvl_ge0(&items, 0, Some('('), ')', false);
    assert_eq!(text(&unescape_pairs(&group, Restore::All, '\\')), "a(b)c\\)d");
    assert_eq!(next, 8);
    let (group, next) = take_while_lvl_ge0(&items, 0, Some('('), ')', true);
    assert_eq!(text(&unescape_pairs(&group, Restore::All, '\\')), "a(b)c\\)d)");
    assert_eq!(next, 8);
    let (group, next) = take_while_lvl_ge0(&items, 0, None, ')', false);
    assert_eq!(text(&unescape_pairs(&group, Restore::All, '\\')), "a(b");
    assert_eq!(next, 4);
    let (group, next) = take_while_lvl_ge0(&items, 8, Some('('), ')', false);
    assert_eq!(text(&unescape_pairs(&group, Restore::All, '\\')), "e");
    assert_eq!(next, 10);
    let (group, next) = take_while_lvl_ge0(&items, 10, Some('('), ')', true);
    assert_eq!(text(&unescape_pairs(&group, Restore::All, '\\')), "f");
    assert_eq!(next, 11);
}

#[test]
fn take_while_level_gives_nothing_after_the_end() {
    let items = vec![(false, 'a'), (false, ')'), (false, 'b')];
    let mut reader = TakeWhileLevelGe0::new(&items, 0, Some('('), ')', false);
    assert_eq!(reader.next(), Some((false, 'a')));
    assert_eq!(reader.next(), None);
    assert_eq!(reader.pos, 2);
    assert_eq!(reader.lvl, None);
    assert_eq!(reader.next(), None);
    assert_eq!(reader.pos, 2);
    let mut reader = TakeWhileLevelGe0::new(&items, 0, Some('('), ')', true);
    assert_eq!(reader.next(), Some((false, 'a')));
    assert_eq!(reader.next(), Some((false, ')')));
    assert_eq!(reader.next(), None);
    assert_eq!(reader.pos, 2);
}

#[test]
fn split_cuts_at_separators_that_are_not_escaped() {
    assert_eq!(texts(split_unescaped(&chars("a:b\\:c:\\d:"), ':', '\\')), vec!["a", "b:c", "\\d", ""]);
    assert_eq!(texts(split_unescaped(&chars(""), ':', '\\')), vec![""]);
    assert_eq!(texts(split_unescaped(&chars(":"), ':', '\\')), vec!["", ""]);
    assert_eq!(texts(splitn_unescaped(&chars("a:b:c:d"), 2, ':', '\\')), vec!["a", "b:c:d"]);
    assert_eq!(texts(splitn_unescaped(&chars("a:b\\:c:d"), 3, ':', '\\')), vec!["a", "b:c", "d"]);
    assert_eq!(texts(splitn_unescaped(&chars("a:b"), 1, ':', '\\')), vec!["a:b"]);
    assert_eq!(texts(splitn_unescaped(&chars("a:b"), 0, ':', '\\')), Vec::<String>::new());
    let items = escape_pairs(&chars("a:b"), '\\');
    assert_eq!(cut_pairs(&items, ':', None), vec![vec![(false, 'a')], vec![(false, 'b')]]);
    assert_eq!(cut_pairs(&items, ':', Some(1)), vec![items.clone()]);
}

#[test]
fn numerals_are_written_in_decimal() {
    assert_eq!(text(&decimal_of(0)), "0");
    assert_eq!(text(&decimal_of(7)), "7");
    assert_eq!(text(&decimal_of(-7)), "-7");
    assert_eq!(text(&decimal_of(1234567890)), "1234567890");
    assert_eq!(text(&decimal_of(i128::MAX)), "170141183460469231731687303715884105727");
    assert_eq!(text(&decimal_of(i128::MIN)), "-170141183460469231731687303715884105728");
    assert_eq!(text(&digits_of(u128::MAX)), "340282366920938463463374607431768211455");
    assert_eq!(text(&digits_of(10)), "10");
}

#[test]
fn numerals_are_read_as_rust_reads_them() {
    for s in [
        "0", "-0", "+0", "7", "+7", "-7", "007", "-007", "", "-", "+", "--1", "1-", "1a", " 1",
        "1 ", "١", "170141183460469231731687303715884105727",
        "170141183460469231731687303715884105728", "-170141183460469231731687303715884105728",
        "-170141183460469231731687303715884105729", "0000000000000000000000000000000000000000001",
        "999999999999999999999999999999999999999999",
    ] {
        assert_eq!(parse_i128(&chars(s)), s.parse::<i128>().ok(), "{}", s);
    }
    assert_eq!(parse_i128(&chars("-170141183460469231731687303715884105728")), Some(i128::MIN));
    assert_eq!(parse_i128(&chars("12a")), None);
}

#[test]
fn numerals_round_trip() {
    for v in [0, 1, -1, 9, 10, -10, 99, 100, 12345, -98765, i128::MAX, i128::MIN] {
        assert_eq!(parse_i128(&decimal_of(v)), Some(v));
        assert_eq!(text(&decimal_of(v)), v.to_string());
    }
}

#[test]
fn shell_words_are_cut_at_spaces() {
    assert_eq!(split_args("echo \"test 123\"456 789"), vec!["echo", "test 123456", "789"]);
    assert_eq!(split_args(""), vec![""]);
    assert_eq!(split_args("  a  b "), vec!["a", "b", ""]);
    assert_eq!(split_args("a\\ b"), vec!["a", "b"]);
    assert_eq!(split_args("a\\bc"), vec!["abc"]);
    assert_eq!(split_args("\"a \\\" b\\n\" c"), vec!["a \" b\\n", "c"]);
    assert_eq!(split_args("x \"open end"), vec!["x", "open end"]);
    assert_eq!(split_args("a\\\"b"), vec!["a\"b"]);
}

#[test]
fn patterns_match_names() {
    assert!(matches_pattern("abc", "abc"));
    assert!(!matches_pattern("abc", "ac"));
    assert!(!matches_pattern("abcd", "abc"));
    assert!(!matches_pattern("ab", "abc"));
    assert!(!matches_pattern("xabc", "abc"));
    assert!(!matches_pattern("aXbXc", "abc"));
    assert!(matches_pattern("", ""));
    assert!(!matches_pattern("anything", ""));
    assert!(!matches_pattern("", "a"));
    assert!(matches_pattern("é.rs", "é.rs"));
}

#[test]
fn leading_star_matches_any_start() {
    assert!(matches_pattern("abc.txt", "*.txt"));
    assert!(matches_pattern("b.rs", "*.rs"));
    assert!(matches_pattern(".rs", "*.rs"));
    assert!(!matches_pattern("a.txt", "*.rs"));
    assert!(!matches_pattern("rs", "*.rs"));
    assert!(!matches_pattern("b.rs.bak", "*.rs"));
    assert!(matches_pattern("xabc", "*abc"));
    assert!(matches_pattern("anything", "*"));
    assert!(matches_pattern("", "*"));
    assert!(matches_pattern("é.rs", "*.rs"));
}

#[test]
fn star_behind_the_start_stands_for_itself() {
    assert!(!matches_pattern("abcd", "abc*"));
    assert!(matches_pattern("abc*", "abc*"));
    assert!(!matches_pattern("a.b.rs", "*.*.rs"));
    assert!(matches_pattern("a.*.rs", "*.*.rs"));
    assert!(matches_pattern("a*", "**"));
    assert!(!matches_pattern("ab", "**"));
}

#[test]
fn head_and_tail_of_a_list() {
    assert_eq!(head_tail(vec![1, 2, 3]), Some((1, vec![2, 3])));
    assert_eq!(head_tail(vec!["a"]), Some(("a", vec![])));
    assert_eq!(head_tail(Vec::<u8>::new()), None);
}

#[test]
fn texts_are_ordered_by_their_characters() {
    for (a, b) in [("", ""), ("", "a"), ("a", ""), ("a", "b"), ("b", "a"), ("ab", "abc"), ("abc", "abd"), ("é", "z"), ("z", "é"), ("10", "9")]
    {
        assert_eq!(text_lt(&chars(a), &chars(b)), a < b, "{} {}", a, b);
    }
}

#[test]
fn sorting_is_stable() {
    let pairs = |v: &[(&str, &str)]| -> Vec<(Vec<char>, Vec<char>)> {
        v.iter().map(|(k, x)| (chars(k), chars(x))).collect()
    };
    let input = pairs(&[("b", "1"), ("a", "2"), ("b", "3"), ("a", "4"), ("c", "5")]);
    assert_eq!(
        sort_pairs(input.clone(), false),
        pairs(&[("a", "2"), ("a", "4"), ("b", "1"), ("b", "3"), ("c", "5")])
    );
    assert_eq!(
        sort_pairs(input, true),
        pairs(&[("c", "5"), ("b", "1"), ("b", "3"), ("a", "2"), ("a", "4")])
    );
    assert_eq!(sort_pairs(vec![], false), vec![]);
}

#[test]
fn words_of_an_order() {
    for w in ["+", "asc", "ascending", "inc", "increasing"] {
        assert_eq!(ppm::iterate::order_of(&chars(w)), Some(false));
    }
    for w in ["-", "desc", "descending", "dec", "decreasing"] {
        assert_eq!(ppm::iterate::order_of(&chars(w)), Some(true));
    }
    for w in ["", "up", "ASC", "asc ", "++"] {
        assert_eq!(ppm::iterate::order_of(&chars(w)), None);
    }
}
