//! The loop: a command that repeats a text for every value of a range or a
//! list.

use vstd::prelude::*;
use vstd::string::StringExecFns;
use crate::engine::{lemma_within_concat, lemma_within_weaken, took_effect, CommandConfig, Engine};
use crate::escape::{split_not_escaped, split_unescaped, texts};
use crate::issue::{views, Issue, IssueView};
use crate::iterate::{order_of, run_list, run_range, sort_items};
use crate::model::{
    for_list, for_parse, for_values, is_ascending_word, is_descending_word, list_items, loop_body,
    loop_body_at, loop_config, paren_from, parse_integer, parse_list, parse_range, parse_sorted,
    part, run_for, skip_whitespace, LoopPlan, LoopValues, Outcome,
};
use crate::number::parse_i128;
use crate::parser::ESCAPE;
use crate::span::Span;
use crate::text::{
    byte_len, byte_offsets, char_is_whitespace, chars_of, is_word, lemma_byte_len_subrange,
    slice_of, string_of,
};
use crate::tools::{find_sep, first_sep};

verus! {

/// The values that a loop takes.
#[derive(Debug, Clone, PartialEq, Eq)]
pub enum ForConfig {
    /// Every text of a list, in order.
    List(Vec<String>),
    /// Every integer from the first to the second, both included. No
    /// integer if the first is greater than the second.
    Range(i128, i128),
    /// Every text of a list, sorted by a key: the list, the expression that
    /// gives the key of an entry, where that expression lies in the body of
    /// the command, and whether the order is descending.
    Sorted(Vec<String>, String, Span, bool),
}

impl View for ForConfig {
    type V = LoopValues;

    open spec fn view(&self) -> LoopValues {
        match self {
            ForConfig::List(items) => LoopValues::List(texts(items@)),
            ForConfig::Range(a, b) => LoopValues::Range(*a, *b),
            ForConfig::Sorted(items, key, at, descending) => LoopValues::Sorted(
                texts(items@),
                key@,
                *at,
                *descending,
            ),
        }
    }
}

/// Finds the first character of `s` at or after position `from` that is
/// not white space: see [`skip_whitespace`].
fn skip_spaces(s: &Vec<char>, from: usize) -> (r: usize)
    requires
        from <= s@.len(),
    ensures
        r == skip_whitespace(s@, from as int),
        from <= r <= s@.len(),
{
    let mut i: usize = from;
    while i < s.len() && char_is_whitespace(s[i])
        invariant
            from <= i <= s@.len(),
            skip_whitespace(s@, i as int) == skip_whitespace(s@, from as int),
        decreases s@.len() - i,
    {
        i += 1;
    }
    i
}

/// Cuts the text of a list into its entries: see [`list_items`].
pub fn items_of(text: &str) -> (items: Vec<String>)
    ensures
        texts(items@) == list_items(text@),
{
    let chars = chars_of(text);
    let mut items: Vec<String> = Vec::new();
    if chars.len() > 0 {
        let pieces = split_unescaped(&chars, ':', ESCAPE);
        let ghost goal = split_not_escaped(chars@, ':', ESCAPE);
        let mut i: usize = 0;
        proof {
            assert(pieces@.map_values(|p: Vec<char>| p@).len() == pieces@.len());
            assert(texts(items@) =~= goal.take(0));
        }
        while i < pieces.len()
            invariant
                i <= pieces.len(),
                goal == pieces@.map_values(|p: Vec<char>| p@),
                texts(items@) == goal.take(i as int),
            decreases pieces.len() - i,
        {
            let item = string_of(&pieces[i]);
            proof {
                assert(goal[i as int] == pieces@[i as int]@);
                assert(texts(items@.push(item)) =~= texts(items@).push(item@));
                assert(goal.take(i as int + 1) =~= goal.take(i as int).push(goal[i as int]));
            }
            items.push(item);
            i += 1;
        }
        proof {
            assert(goal.take(goal.len() as int) =~= goal);
        }
    } else {
        proof {
            assert(texts(items@) =~= Seq::<Seq<char>>::empty());
        }
    }
    items
}

/// Finds the `)` that closes the group of `s` that position `from` lies
/// in: see [`paren_from`].
fn find_paren(s: &Vec<char>, from: usize) -> (r: usize)
    requires
        from <= s@.len(),
    ensures
        r == paren_from(s@, from as int, 0, false),
        from <= r <= s@.len(),
{
    let n = s.len();
    let mut lvl: usize = 0;
    let mut esc = false;
    let mut i: usize = from;
    while i < n
        invariant
            n == s@.len(),
            from <= i <= n,
            lvl <= i,
            paren_from(s@, i as int, lvl as nat, esc) == paren_from(s@, from as int, 0, false),
        decreases n - i,
    {
        let c = s[i];
        if esc {
            esc = false;
        } else if c == ESCAPE {
            esc = true;
        } else if c == '(' {
            lvl += 1;
        } else if c == ')' {
            if lvl == 0 {
                return i;
            }
            lvl -= 1;
        }
        i += 1;
    }
    i
}

/// Where the parts of a sorted list stand in the configuration of a loop.
pub struct SortedMarks {
    /// The position behind the expression that gives the key.
    pub key_end: usize,
    /// The expression that gives the key.
    pub key: Vec<char>,
    /// The word of the order, empty where none is given.
    pub order: Vec<char>,
    /// Whether the order is descending; `None` if the word is no order.
    pub descending: Option<bool>,
    /// The position at which the list starts.
    pub behind: usize,
}

impl SortedMarks {
    /// Finds the parts of a sorted list in the configuration `config`,
    /// where `in.sorted(` ends at position `from`: see [`parse_sorted`].
    pub fn of(config: &Vec<char>, from: usize) -> (r: Self)
        requires
            from <= config@.len(),
        ensures
            ({
                let close = paren_from(config@, from as int, 0, false);
                let inside = part(config@, from as int, close);
                let colon = first_sep(inside, ':', 0);
                let order = part(inside, colon + 1, inside.len() as int);
                &&& from <= r.key_end <= r.behind <= config@.len()
                &&& r.key_end == from + colon
                &&& r.key@ == part(inside, 0, colon)
                &&& r.key@ == config@.subrange(from as int, r.key_end as int)
                &&& r.order@ == order
                &&& r.behind == if close < config@.len() {
                    close + 1
                } else {
                    config@.len() as int
                }
                &&& match r.descending {
                    Some(d) => d == (colon < inside.len() && is_descending_word(order)) && !(colon
                        < inside.len() && !is_ascending_word(order) && !is_descending_word(order)),
                    None => colon < inside.len() && !is_ascending_word(order)
                        && !is_descending_word(order),
                }
            }),
    {
        let close = find_paren(config, from);
        let inside = slice_of(config, from, close);
        let colon = find_sep(&inside, ':', 0);
        let key = slice_of(&inside, 0, colon);
        let order = if colon < inside.len() {
            slice_of(&inside, colon + 1, inside.len())
        } else {
            Vec::new()
        };
        proof {
            assert(inside@ =~= part(config@, from as int, close as int));
            assert(key@ =~= part(inside@, 0, colon as int));
            assert(order@ =~= part(inside@, colon + 1, inside@.len() as int));
            assert(key@ =~= config@.subrange(from as int, from + colon));
        }
        let descending = if colon < inside.len() {
            order_of(&order)
        } else {
            Some(false)
        };
        SortedMarks {
            key_end: from + colon,
            key,
            order,
            descending,
            behind: if close < config.len() {
                close + 1
            } else {
                config.len()
            },
        }
    }
}

impl ForConfig {
    /// Reads the list of a loop, where `b` holds the characters of the body
    /// of the command, the configuration ends at position `semi` of `b`,
    /// and the word `in` ends at position `e1`.
    fn read_list(
        cfg: &CommandConfig,
        engine: &mut Engine,
        issues: &mut Vec<Issue>,
        b: &Vec<char>,
        offsets: &Vec<usize>,
        semi: usize,
        e1: usize,
    ) -> (items: Vec<String>)
        requires
            cfg.wf(),
            b@ == cfg.body@,
            e1 <= semi <= b@.len(),
            offsets@.len() == b@.len() + 1,
            forall|j: int| 0 <= j <= b@.len() ==> #[trigger] offsets@[j] == byte_len(b@.take(j)),
        ensures
            ({
                let p = parse_list(
                    old(engine).commands(),
                    old(engine).vars@,
                    cfg@,
                    b@.take(semi as int),
                    e1 as int,
                );
                &&& took_effect(
                    *old(engine),
                    old(issues)@,
                    *final(engine),
                    final(issues)@,
                    Seq::empty(),
                    Outcome { text: Seq::empty(), issues: p.issues, vars: p.vars },
                    cfg.body_span.end_pos(),
                )
                &&& p.values == Ok::<LoopValues, IssueView>(LoopValues::List(texts(items@)))
            }),
        decreases cfg.body@.len(), 17nat, 0nat,
    {
        let ghost config = b@.take(semi as int);
        let at = if e1 < semi {
            let cut = slice_of(b, 0, semi);
            assert(cut@ =~= config);
            skip_spaces(&cut, e1 + 1)
        } else {
            semi
        };
        proof {
            assert(b@.subrange(at as int, semi as int) =~= part(
                config,
                at as int,
                config.len() as int,
            ));
            assert(b@.take(at as int) =~= part(config, 0, at as int));
        }
        let text = cfg.process_part(engine, issues, b, offsets, at, semi);
        items_of(text.as_str())
    }

    /// Reads the sorted list of a loop, where `b` holds the characters of
    /// the body of the command, the configuration ends at position `semi`
    /// of `b`, and `in.sorted(` ends at position `from`.
    #[verifier::rlimit(50)]
    fn read_sorted(
        cfg: &CommandConfig,
        engine: &mut Engine,
        issues: &mut Vec<Issue>,
        b: &Vec<char>,
        offsets: &Vec<usize>,
        semi: usize,
        from: usize,
    ) -> (r: Result<ForConfig, Issue>)
        requires
            cfg.wf(),
            b@ == cfg.body@,
            from <= semi <= b@.len(),
            offsets@.len() == b@.len() + 1,
            forall|j: int| 0 <= j <= b@.len() ==> #[trigger] offsets@[j] == byte_len(b@.take(j)),
        ensures
            ({
                let p = parse_sorted(
                    old(engine).commands(),
                    old(engine).vars@,
                    cfg@,
                    b@.take(semi as int),
                    from as int,
                );
                &&& took_effect(
                    *old(engine),
                    old(issues)@,
                    *final(engine),
                    final(issues)@,
                    Seq::empty(),
                    Outcome { text: Seq::empty(), issues: p.issues, vars: p.vars },
                    cfg.body_span.end_pos(),
                )
                &&& match r {
                    Ok(values) => p.values == Ok::<LoopValues, IssueView>(values@) && match values {
                        ForConfig::Sorted(_, key, at, _) => crate::iterate::is_part_of_body(
                            *cfg,
                            key@,
                            at,
                        ),
                        _ => false,
                    },
                    Err(e) => p.values == Err::<LoopValues, IssueView>(e@),
                }
            }),
        decreases cfg.body@.len(), 17nat, 0nat,
    {
        let ghost goal = parse_sorted(
            engine.commands(),
            engine.vars@,
            cfg@,
            b@.take(semi as int),
            from as int,
        );
        let config = slice_of(b, 0, semi);
        proof {
            assert(config@ =~= b@.take(semi as int));
        }
        let marks = SortedMarks::of(&config, from);
        let descending = match marks.descending {
            Some(d) => d,
            None => {
                let mut msg = String::from_str("unknown sorting order: ");
                msg.append(string_of(&marks.order).as_str());
                let issue = Issue { id: "command:invalid_args:partial", msg, span: cfg.cmd_span };
                proof {
                    assert(views(issues@) + Seq::<IssueView>::empty() =~= views(issues@));
                    assert(goal.values == Err::<LoopValues, IssueView>(issue@));
                }
                return Err(issue);
            },
        };
        let key = slice_of(b, from, marks.key_end);
        proof {
            assert(key@ =~= marks.key@);
            lemma_byte_len_subrange(b@, from as int, marks.key_end as int);
            lemma_byte_len_subrange(b@, marks.key_end as int, b@.len() as int);
            assert(b@.take(from as int) =~= part(config@, 0, from as int));
            assert(b@.subrange(marks.behind as int, semi as int) =~= part(
                config@,
                marks.behind as int,
                config@.len() as int,
            ));
            assert(b@.take(marks.behind as int) =~= part(config@, 0, marks.behind as int));
        }
        let at = Span { start: offsets[from], len: offsets[marks.key_end] - offsets[from] };
        let text = cfg.process_part(engine, issues, b, offsets, marks.behind, semi);
        let items = items_of(text.as_str());
        let values = ForConfig::Sorted(items, string_of(&key), at, descending);
        proof {
            assert(goal.values == Ok::<LoopValues, IssueView>(values@));
        }
        Ok(values)
    }

    /// Reads the integer that stands in the body of the command from
    /// position `from` up to position `to`, where `b` holds the characters
    /// of the body and the configuration ends at position `semi` of `b`.
    /// The text there is expanded first. Where it is no integer, the issue
    /// says `what` and the expanded text.
    fn read_integer(
        cfg: &CommandConfig,
        engine: &mut Engine,
        issues: &mut Vec<Issue>,
        b: &Vec<char>,
        offsets: &Vec<usize>,
        semi: usize,
        from: usize,
        to: usize,
        what: &str,
    ) -> (r: Result<i128, Issue>)
        requires
            cfg.wf(),
            b@ == cfg.body@,
            from <= to <= semi <= b@.len(),
            offsets@.len() == b@.len() + 1,
            forall|j: int| 0 <= j <= b@.len() ==> #[trigger] offsets@[j] == byte_len(b@.take(j)),
        ensures
            ({
                let p = parse_integer(
                    old(engine).commands(),
                    old(engine).vars@,
                    cfg@,
                    b@.take(semi as int),
                    from as int,
                    to as int,
                    what@,
                );
                &&& took_effect(
                    *old(engine),
                    old(issues)@,
                    *final(engine),
                    final(issues)@,
                    Seq::empty(),
                    Outcome { text: Seq::empty(), issues: p.issues, vars: p.vars },
                    cfg.body_span.end_pos(),
                )
                &&& match r {
                    Ok(v) => p.value == Ok::<i128, IssueView>(v),
                    Err(e) => p.value == Err::<i128, IssueView>(e@),
                }
            }),
        decreases cfg.body@.len(), 16nat, 0nat,
    {
        let ghost config = b@.take(semi as int);
        proof {
            assert(b@.subrange(from as int, to as int) =~= part(config, from as int, to as int));
            assert(b@.take(from as int) =~= part(config, 0, from as int));
        }
        let text = cfg.process_part(engine, issues, b, offsets, from, to);
        match parse_i128(&chars_of(text.as_str())) {
            Some(x) => Ok(x),
            None => {
                let mut msg = String::from_str(what);
                msg.append(text.as_str());
                Err(cfg.invalid_args(msg))
            },
        }
    }

    /// Reads the range of a loop, where `b` holds the characters of the
    /// body of the command, the configuration ends at position `semi` of
    /// `b`, and the word `from` ends at position `e1`.
    #[verifier::rlimit(50)]
    fn read_range(
        cfg: &CommandConfig,
        engine: &mut Engine,
        issues: &mut Vec<Issue>,
        b: &Vec<char>,
        offsets: &Vec<usize>,
        semi: usize,
        e1: usize,
    ) -> (r: Result<(i128, i128), Issue>)
        requires
            cfg.wf(),
            b@ == cfg.body@,
            e1 <= semi <= b@.len(),
            offsets@.len() == b@.len() + 1,
            forall|j: int| 0 <= j <= b@.len() ==> #[trigger] offsets@[j] == byte_len(b@.take(j)),
        ensures
            ({
                let p = parse_range(
                    old(engine).commands(),
                    old(engine).vars@,
                    cfg@,
                    b@.take(semi as int),
                    e1 as int,
                );
                &&& took_effect(
                    *old(engine),
                    old(issues)@,
                    *final(engine),
                    final(issues)@,
                    Seq::empty(),
                    Outcome { text: Seq::empty(), issues: p.issues, vars: p.vars },
                    cfg.body_span.end_pos(),
                )
                &&& match r {
                    Ok((from, to)) => p.values == Ok::<LoopValues, IssueView>(
                        LoopValues::Range(from, to),
                    ),
                    Err(e) => p.values == Err::<LoopValues, IssueView>(e@),
                }
            }),
        decreases cfg.body@.len(), 17nat, 0nat,
    {
        let ghost cmds = engine.commands();
        let ghost vars = engine.vars@;
        let ghost bound = cfg.body_span.end_pos();
        let config = slice_of(b, 0, semi);
        proof {
            assert(config@ =~= b@.take(semi as int));
            assert(views(issues@) + Seq::<IssueView>::empty() =~= views(issues@));
        }
        if e1 >= semi {
            return Err(cfg.invalid_args("no starting integer given".to_string()));
        }
        let e2 = find_sep(&config, ' ', e1 + 1);
        let ghost first = parse_integer(
            cmds,
            vars,
            cfg@,
            config@,
            e1 + 1,
            e2 as int,
            "invalid starting integer: "@,
        );
        let from = match Self::read_integer(
            cfg,
            engine,
            issues,
            b,
            offsets,
            semi,
            e1 + 1,
            e2,
            "invalid starting integer: ",
        ) {
            Ok(x) => x,
            Err(e) => {
                return Err(e);
            },
        };
        if e2 >= semi {
            return Err(cfg.invalid_args("no range end given".to_string()));
        }
        let e3 = find_sep(&config, ' ', e2 + 1);
        let word = slice_of(&config, e2 + 1, e3);
        proof {
            assert(word@ =~= part(config@, e2 + 1, e3 as int));
        }
        if !is_word(&word, "to") {
            let mut msg = String::from_str("invalid range end: ");
            msg.append(string_of(&word).as_str());
            return Err(cfg.invalid_args(msg));
        }
        if e3 >= semi {
            return Err(cfg.invalid_args("no ending integer given".to_string()));
        }
        let e4 = find_sep(&config, ' ', e3 + 1);
        let ghost last = parse_integer(
            cmds,
            first.vars,
            cfg@,
            config@,
            e3 + 1,
            e4 as int,
            "invalid ending integer: "@,
        );
        let r = Self::read_integer(
            cfg,
            engine,
            issues,
            b,
            offsets,
            semi,
            e3 + 1,
            e4,
            "invalid ending integer: ",
        );
        proof {
            assert(views(issues@) =~= views(old(issues)@) + (first.issues + last.issues));
            lemma_within_concat(first.issues, last.issues, bound);
        }
        match r {
            Ok(to) => Ok((from, to)),
            Err(e) => Err(e),
        }
    }

    /// Reads the configuration of a loop from the body of the command.
    ///
    /// The body is `<variable> <values>;<text>`, where `<values>` is
    /// `from <integer> to <integer>`, `in <list>` or
    /// `in.sorted(<key>:<order>)<list>`. Each integer is expanded before it
    /// is read, and so is the list before it is cut at the colons that are
    /// not escaped.
    ///
    /// Gives the name of the loop variable, the values, the text to repeat
    /// and where that text lies in the body; or the issue that tells what
    /// is wrong with the configuration.
    #[verifier::rlimit(50)]
    pub fn new(cfg: &CommandConfig, engine: &mut Engine, issues: &mut Vec<Issue>) -> (r: Result<
        (String, ForConfig, String, Span),
        Issue,
    >)
        requires
            cfg.wf(),
        ensures
            ({
                let p = for_parse(old(engine).commands(), old(engine).vars@, cfg@);
                &&& took_effect(
                    *old(engine),
                    old(issues)@,
                    *final(engine),
                    final(issues)@,
                    Seq::empty(),
                    Outcome { text: Seq::empty(), issues: p.issues, vars: p.vars },
                    cfg.body_span.end_pos(),
                )
                &&& match r {
                    Ok((name, values, body, at)) => p.plan == Ok::<LoopPlan, IssueView>(
                        LoopPlan { name: name@, values: values@, body: body@, body_at: at },
                    ) && crate::iterate::is_part_of_body(*cfg, body@, at) && match values {
                        ForConfig::Sorted(_, key, key_at, _) => crate::iterate::is_part_of_body(
                            *cfg,
                            key@,
                            key_at,
                        ),
                        _ => true,
                    },
                    Err(e) => p.plan == Err::<LoopPlan, IssueView>(e@),
                }
            }),
        decreases cfg.body@.len(), 18nat, 0nat,
    {
        let b = chars_of(cfg.body.as_str());
        let n = b.len();
        let offsets = byte_offsets(&b);
        let semi = find_sep(&b, ';', 0);
        let config = slice_of(&b, 0, semi);
        let body_from = if semi < n {
            semi + 1
        } else {
            n
        };
        let body = slice_of(&b, body_from, n);
        proof {
            lemma_byte_len_subrange(b@, body_from as int, n as int);
        }
        let body_at = Span { start: offsets[body_from], len: offsets[n] - offsets[body_from] };
        let e0 = find_sep(&config, ' ', 0);
        let name = slice_of(&config, 0, e0);
        proof {
            assert(config@ =~= loop_config(b@));
            assert(config@ =~= b@.take(semi as int));
            assert(body@ =~= loop_body(b@));
            assert(b@.take(body_from as int) =~= part(b@, 0, n - body@.len()));
            assert(body_at == loop_body_at(b@));
            assert(name@ =~= part(config@, 0, e0 as int));
            assert(views(issues@) + Seq::<IssueView>::empty() =~= views(issues@));
        }
        if e0 >= semi {
            return Err(cfg.missing_args("no repeat kind given"));
        }
        let e1 = find_sep(&config, ' ', e0 + 1);
        let kind = slice_of(&config, e0 + 1, e1);
        proof {
            assert(kind@ =~= part(config@, e0 + 1, e1 as int));
        }
        let marked = if semi - e0 >= 11 {
            is_word(&slice_of(&config, e0 + 1, e0 + 11), "in.sorted(")
        } else {
            false
        };
        proof {
            if e0 + 11 <= semi {
                assert(config@.subrange(e0 + 1, e0 + 11) =~= part(config@, e0 + 1, e0 + 11));
            } else {
                reveal_strlit("in.sorted(");
                assert(part(config@, e0 + 1, e0 + 11).len() == 0);
            }
        }
        if is_word(&kind, "in") {
            let items = Self::read_list(cfg, engine, issues, &b, &offsets, semi, e1);
            Ok((string_of(&name), ForConfig::List(items), string_of(&body), body_at))
        } else if marked {
            match Self::read_sorted(cfg, engine, issues, &b, &offsets, semi, e0 + 11) {
                Ok(values) => Ok((string_of(&name), values, string_of(&body), body_at)),
                Err(e) => Err(e),
            }
        } else if is_word(&kind, "from") {
            match Self::read_range(cfg, engine, issues, &b, &offsets, semi, e1) {
                Ok((from, to)) => Ok(
                    (string_of(&name), ForConfig::Range(from, to), string_of(&body), body_at),
                ),
                Err(e) => Err(e),
            }
        } else {
            let mut msg = String::from_str("unknown repeat kind: ");
            msg.append(string_of(&kind).as_str());
            Err(cfg.invalid_args(msg))
        }
    }
}

/// A loop that repeats a text and updates a loop variable.
///
/// The argument is `<variable> <values>;<text>`:
/// - `from <integer> to <integer>` takes every integer from the first to
///   the second; it does nothing if the first is greater than the second
/// - `in <list>` takes every entry of a list, whose entries are separated
///   by colons; a backslash before a colon makes it part of an entry
/// - `in.sorted(<key>:<order>)<list>` is like `in <list>`, but the list is
///   sorted before: `<key>` is expanded for every entry and gives the key
///   that the entries are sorted by, and `<order>` is one of `asc`,
///   `ascending`, `inc`, `increasing`, `+` (from low to high) or `desc`,
///   `descending`, `dec`, `decreasing`, `-` (from high to low)
///
/// For every value the loop variable gets the value and `<text>` is
/// expanded. The loop overwrites any value that the variable had, and gives
/// it back once it has finished.
#[verifier::rlimit(50)]
pub fn handler(cfg: CommandConfig, engine: &mut Engine, issues: &mut Vec<Issue>) -> (out: String)
    requires
        cfg.wf(),
    ensures
        took_effect(
            *old(engine),
            old(issues)@,
            *final(engine),
            final(issues)@,
            out@,
            run_for(old(engine).commands(), old(engine).vars@, cfg@),
            cfg.cmd_span.end_pos(),
        ),
    decreases cfg.body@.len(), 19nat, 0nat,
{
    let ghost ctx = cfg@;
    let ghost cmds = engine.commands();
    let ghost vars = engine.vars@;
    let ghost bound = cfg.cmd_span.end_pos();
    let ghost p = for_parse(cmds, vars, ctx);
    let (name, values, body, at) = match ForConfig::new(&cfg, engine, issues) {
        Ok(x) => x,
        Err(e) => {
            proof {
                assert(views(issues@.push(e)) =~= views(issues@).push(e@));
                assert((views(old(issues)@) + p.issues).push(e@) =~= views(old(issues)@)
                    + p.issues.push(e@));
                lemma_within_weaken(p.issues, cfg.body_span.end_pos(), bound);
                assert forall|j: int| 0 <= j < p.issues.push(e@).len() implies (
                #[trigger] p.issues.push(e@)[j]).span.within(bound) by {
                    if j < p.issues.len() {
                        assert(p.issues[j].span.within(bound));
                    }
                }
            }
            issues.push(e);
            return String::new();
        },
    };
    let saved = engine.vars.remove(name.as_str());
    let ghost run = for_values(cmds, engine.vars@, ctx, p.plan->Ok_0);
    let out = run_values(&cfg, engine, issues, &name, values, &body, at);
    proof {
        lemma_within_weaken(p.issues, cfg.body_span.end_pos(), bound);
        lemma_within_weaken(run.issues, cfg.body_span.end_pos(), bound);
        lemma_within_concat(p.issues, run.issues, bound);
        assert(views(issues@) =~= views(old(issues)@) + (p.issues + run.issues));
    }
    match saved {
        Some(v) => {
            engine.vars.insert(name, v);
        },
        None => {
            engine.vars.remove(name.as_str());
        },
    }
    out
}

/// Runs a loop over its values, once the loop variable has been put aside:
/// a list that is to be sorted is sorted first.
pub fn run_values(
    cfg: &CommandConfig,
    engine: &mut Engine,
    issues: &mut Vec<Issue>,
    name: &String,
    values: ForConfig,
    body: &String,
    at: Span,
) -> (out: String)
    requires
        crate::iterate::is_part_of_body(*cfg, body@, at),
        match values {
            ForConfig::Sorted(_, key, key_at, _) => crate::iterate::is_part_of_body(
                *cfg,
                key@,
                key_at,
            ),
            _ => true,
        },
    ensures
        took_effect(
            *old(engine),
            old(issues)@,
            *final(engine),
            final(issues)@,
            out@,
            for_values(
                old(engine).commands(),
                old(engine).vars@,
                cfg@,
                LoopPlan { name: name@, values: values@, body: body@, body_at: at },
            ),
            cfg.body_span.end_pos(),
        ),
    decreases cfg.body@.len(), 17nat, 0nat,
{
    let ghost cmds = engine.commands();
    match values {
        ForConfig::Range(a, b) => run_range(cfg, engine, issues, name, body, at, a, b),
        ForConfig::List(items) => run_list(cfg, engine, issues, name, body, at, &items),
        ForConfig::Sorted(items, key, key_at, descending) => {
            let ghost keyed = crate::model::sort_keys(
                cmds,
                engine.vars@,
                key@,
                cfg.body@.len(),
                cfg.body_span.start + key_at.start,
                name@,
                texts(items@),
                0,
            );
            let sorted = sort_items(cfg, engine, issues, name, &key, key_at, items, descending);
            let ghost listed = for_list(
                cmds,
                engine.vars@,
                body@,
                cfg.body@.len(),
                cfg.body_span.start + at.start,
                name@,
                texts(sorted@),
                0,
            );
            let out = run_list(cfg, engine, issues, name, body, at, &sorted);
            proof {
                assert(views(issues@) =~= views(old(issues)@) + (keyed.issues + listed.issues));
                lemma_within_concat(keyed.issues, listed.issues, cfg.body_span.end_pos());
            }
            out
        },
    }
}

} // verus!
