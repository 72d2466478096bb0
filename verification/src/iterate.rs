//! Repeating an expansion for the values of a variable.
//!
//! A command that works through a collection gives a variable each value
//! in turn and expands a text for it. Some sort the collection first, by a
//! key that is computed for every entry in the same way. The functions
//! here do the repeating; the command that calls them puts the variable
//! aside before and gives it back afterwards.

use vstd::prelude::*;
use vstd::string::StringExecFns;
use crate::engine::{lemma_within_concat, lemma_within_weaken, took_effect, CommandConfig, Engine};
use crate::escape::texts;
use crate::issue::{all_within, views, Issue, IssueView};
use crate::model::{
    expand_part, for_list, for_range, is_ascending_word, is_descending_word, sort_keys, Outcome,
};
use crate::number::{decimal, decimal_of};
use crate::sort::{lemma_stable_sort_len, pair_views, sort_pairs, sorted_by_key, stable_sort, zip};
use crate::span::Span;
use crate::text::{byte_len, chars_of, is_word, string_of};

verus! {

/// Whether `text` is a part of the body of `cfg` that lies at `at` in it:
/// it is no longer than the body, takes no more bytes than `at` has, and
/// `at` lies within the span of the body.
pub open spec fn is_part_of_body(cfg: CommandConfig, text: Seq<char>, at: Span) -> bool {
    &&& cfg.body_span.end_pos() <= cfg.cmd_span.end_pos() <= usize::MAX
    &&& at.end_pos() <= cfg.body_span.len
    &&& byte_len(text) <= at.len
    &&& text.len() <= cfg.body@.len()
}

/// Reads the word of an order: gives whether the order is descending, or
/// nothing if the word is no order. `+`, `asc`, `ascending`, `inc` and
/// `increasing` ask for ascending order; `-`, `desc`, `descending`, `dec`
/// and `decreasing` for descending order.
pub fn order_of(word: &Vec<char>) -> (r: Option<bool>)
    ensures
        match r {
            Some(descending) => descending == is_descending_word(word@) && (descending
                || is_ascending_word(word@)),
            None => !is_ascending_word(word@) && !is_descending_word(word@),
        },
{
    if is_word(word, "-") || is_word(word, "desc") || is_word(word, "descending") || is_word(
        word,
        "dec",
    ) || is_word(word, "decreasing") {
        Some(true)
    } else if is_word(word, "+") || is_word(word, "asc") || is_word(word, "ascending") || is_word(
        word,
        "inc",
    ) || is_word(word, "increasing") {
        Some(false)
    } else {
        None
    }
}

/// Expands `body` for every integer from `from` to `to`: for each in turn,
/// the variable `name` gets its numeral as its value. Gives the results
/// put together. `at` is where `body` lies in the body of the command.
pub fn run_range(
    cfg: &CommandConfig,
    engine: &mut Engine,
    issues: &mut Vec<Issue>,
    name: &String,
    body: &String,
    at: Span,
    from: i128,
    to: i128,
) -> (out: String)
    requires
        is_part_of_body(*cfg, body@, at),
    ensures
        took_effect(
            *old(engine),
            old(issues)@,
            *final(engine),
            final(issues)@,
            out@,
            for_range(
                old(engine).commands(),
                old(engine).vars@,
                body@,
                cfg.body@.len(),
                cfg.body_span.start + at.start,
                name@,
                from as int,
                to as int,
            ),
            cfg.body_span.end_pos(),
        ),
    decreases cfg.body@.len(), 16nat, 0nat,
{
    let ghost cmds = engine.commands();
    let ghost limit = cfg.body@.len();
    let ghost shift = cfg.body_span.start + at.start;
    let ghost bound = cfg.body_span.end_pos();
    let ghost total = for_range(
        cmds,
        engine.vars@,
        body@,
        limit,
        shift,
        name@,
        from as int,
        to as int,
    );
    let ghost mut raised: Seq<IssueView> = Seq::empty();
    let mut out = String::new();
    let mut i: i128 = from;
    let mut done = from > to;
    proof {
        assert(out@ + total.text =~= total.text);
        assert(raised + total.issues =~= total.issues);
        assert(views(issues@) + raised =~= views(issues@));
    }
    while !done
        invariant
            from <= to ==> from <= i <= to,
            done || i <= to,
            is_part_of_body(*cfg, body@, at),
            limit == cfg.body@.len(),
            shift == cfg.body_span.start + at.start,
            bound == cfg.body_span.end_pos(),
            engine.commands() == cmds,
            engine.root_path() == old(engine).root_path(),
            views(issues@) == views(old(issues)@) + raised,
            all_within(raised, bound),
            ({
                let rest = for_range(
                    cmds,
                    engine.vars@,
                    body@,
                    limit,
                    shift,
                    name@,
                    if done {
                        to + 1
                    } else {
                        i as int
                    },
                    to as int,
                );
                &&& out@ + rest.text == total.text
                &&& raised + rest.issues == total.issues
                &&& rest.vars == total.vars
            }),
        decreases
                if done {
                    0
                } else {
                    to - i + 1
                },
    {
        let ghost step = expand_part(
            cmds,
            engine.vars@.insert(name@, decimal(i as int)),
            body@,
            limit,
            shift,
        );
        let ghost after = for_range(cmds, step.vars, body@, limit, shift, name@, i + 1, to as int);
        engine.vars.insert(name.clone(), string_of(&decimal_of(i)));
        let text = cfg.process_subbody(engine, issues, body.clone(), at);
        out.append(text.unwrap().as_str());
        proof {
            assert((raised + step.issues) + after.issues =~= raised + (step.issues
                + after.issues));
            assert(views(issues@) =~= views(old(issues)@) + (raised + step.issues));
            lemma_within_weaken(step.issues, cfg.body_span.start + at.end_pos(), bound);
            lemma_within_concat(raised, step.issues, bound);
            raised = raised + step.issues;
        }
        if i == to {
            done = true;
        } else {
            i = i + 1;
        }
    }
    proof {
        assert(raised + Seq::<IssueView>::empty() =~= raised);
    }
    out
}

/// Expands `body` for every text of `items`: for each in turn, the
/// variable `name` gets the text as its value. Gives the results put
/// together. `at` is where `body` lies in the body of the command.
pub fn run_list(
    cfg: &CommandConfig,
    engine: &mut Engine,
    issues: &mut Vec<Issue>,
    name: &String,
    body: &String,
    at: Span,
    items: &Vec<String>,
) -> (out: String)
    requires
        is_part_of_body(*cfg, body@, at),
    ensures
        took_effect(
            *old(engine),
            old(issues)@,
            *final(engine),
            final(issues)@,
            out@,
            for_list(
                old(engine).commands(),
                old(engine).vars@,
                body@,
                cfg.body@.len(),
                cfg.body_span.start + at.start,
                name@,
                texts(items@),
                0,
            ),
            cfg.body_span.end_pos(),
        ),
    decreases cfg.body@.len(), 16nat, 0nat,
{
    let ghost cmds = engine.commands();
    let ghost limit = cfg.body@.len();
    let ghost shift = cfg.body_span.start + at.start;
    let ghost bound = cfg.body_span.end_pos();
    let ghost item_views = texts(items@);
    let ghost total = for_list(cmds, engine.vars@, body@, limit, shift, name@, item_views, 0);
    let ghost mut raised: Seq<IssueView> = Seq::empty();
    let mut out = String::new();
    let mut k: usize = 0;
    proof {
        assert(out@ + total.text =~= total.text);
        assert(raised + total.issues =~= total.issues);
        assert(views(issues@) + raised =~= views(issues@));
    }
    while k < items.len()
        invariant
            k <= items.len(),
            item_views == texts(items@),
            is_part_of_body(*cfg, body@, at),
            limit == cfg.body@.len(),
            shift == cfg.body_span.start + at.start,
            bound == cfg.body_span.end_pos(),
            engine.commands() == cmds,
            engine.root_path() == old(engine).root_path(),
            views(issues@) == views(old(issues)@) + raised,
            all_within(raised, bound),
            ({
                let rest = for_list(
                    cmds,
                    engine.vars@,
                    body@,
                    limit,
                    shift,
                    name@,
                    item_views,
                    k as int,
                );
                &&& out@ + rest.text == total.text
                &&& raised + rest.issues == total.issues
                &&& rest.vars == total.vars
            }),
        decreases items.len() - k,
    {
        let ghost step = expand_part(
            cmds,
            engine.vars@.insert(name@, item_views[k as int]),
            body@,
            limit,
            shift,
        );
        let ghost after = for_list(
            cmds,
            step.vars,
            body@,
            limit,
            shift,
            name@,
            item_views,
            k as int + 1,
        );
        proof {
            assert(item_views[k as int] == items@[k as int]@);
        }
        engine.vars.insert(name.clone(), items[k].clone());
        let text = cfg.process_subbody(engine, issues, body.clone(), at);
        out.append(text.unwrap().as_str());
        proof {
            assert((raised + step.issues) + after.issues =~= raised + (step.issues
                + after.issues));
            assert(views(issues@) =~= views(old(issues)@) + (raised + step.issues));
            lemma_within_weaken(step.issues, cfg.body_span.start + at.end_pos(), bound);
            lemma_within_concat(raised, step.issues, bound);
            raised = raised + step.issues;
        }
        k += 1;
    }
    proof {
        assert(raised + Seq::<IssueView>::empty() =~= raised);
    }
    out
}

/// Sorts `items` by a key: for each entry in turn, the variable `name`
/// gets the entry as its value, and expanding `key` gives the key of the
/// entry. Entries with equal keys stay in the order in which they came.
/// `at` is where `key` lies in the body of the command.
pub fn sort_items(
    cfg: &CommandConfig,
    engine: &mut Engine,
    issues: &mut Vec<Issue>,
    name: &String,
    key: &String,
    at: Span,
    items: Vec<String>,
    descending: bool,
) -> (sorted: Vec<String>)
    requires
        is_part_of_body(*cfg, key@, at),
    ensures
        ({
            let keyed = sort_keys(
                old(engine).commands(),
                old(engine).vars@,
                key@,
                cfg.body@.len(),
                cfg.body_span.start + at.start,
                name@,
                texts(items@),
                0,
            );
            &&& took_effect(
                *old(engine),
                old(issues)@,
                *final(engine),
                final(issues)@,
                Seq::empty(),
                Outcome { text: Seq::empty(), issues: keyed.issues, vars: keyed.vars },
                cfg.body_span.end_pos(),
            )
            &&& texts(sorted@) == sorted_by_key(keyed.keys, texts(items@), descending)
        }),
    decreases cfg.body@.len(), 16nat, 0nat,
{
    let ghost cmds = engine.commands();
    let ghost limit = cfg.body@.len();
    let ghost shift = cfg.body_span.start + at.start;
    let ghost bound = cfg.body_span.end_pos();
    let ghost item_views = texts(items@);
    let ghost total = sort_keys(cmds, engine.vars@, key@, limit, shift, name@, item_views, 0);
    let ghost mut raised: Seq<IssueView> = Seq::empty();
    let ghost mut keys: Seq<Seq<char>> = Seq::empty();
    let mut pairs: Vec<(Vec<char>, Vec<char>)> = Vec::new();
    let mut k: usize = 0;
    proof {
        assert(keys + total.keys =~= total.keys);
        assert(raised + total.issues =~= total.issues);
        assert(views(issues@) + raised =~= views(issues@));
        assert(pair_views(pairs@) =~= zip(keys, item_views.take(0)));
    }
    while k < items.len()
        invariant
            k <= items.len(),
            item_views == texts(items@),
            is_part_of_body(*cfg, key@, at),
            limit == cfg.body@.len(),
            shift == cfg.body_span.start + at.start,
            bound == cfg.body_span.end_pos(),
            engine.commands() == cmds,
            engine.root_path() == old(engine).root_path(),
            views(issues@) == views(old(issues)@) + raised,
            all_within(raised, bound),
            keys.len() == k,
            pair_views(pairs@) == zip(keys, item_views.take(k as int)),
            ({
                let rest = sort_keys(
                    cmds,
                    engine.vars@,
                    key@,
                    limit,
                    shift,
                    name@,
                    item_views,
                    k as int,
                );
                &&& keys + rest.keys == total.keys
                &&& raised + rest.issues == total.issues
                &&& rest.vars == total.vars
            }),
        decreases items.len() - k,
    {
        let ghost step = expand_part(
            cmds,
            engine.vars@.insert(name@, item_views[k as int]),
            key@,
            limit,
            shift,
        );
        let ghost after = sort_keys(
            cmds,
            step.vars,
            key@,
            limit,
            shift,
            name@,
            item_views,
            k as int + 1,
        );
        proof {
            assert(item_views[k as int] == items@[k as int]@);
        }
        engine.vars.insert(name.clone(), items[k].clone());
        let text = cfg.process_subbody(engine, issues, key.clone(), at);
        let key_chars = chars_of(text.unwrap().as_str());
        let item = chars_of(items[k].as_str());
        proof {
            assert(keys.push(step.text) + after.keys =~= keys + (seq![step.text] + after.keys));
            assert((raised + step.issues) + after.issues =~= raised + (step.issues
                + after.issues));
            assert(views(issues@) =~= views(old(issues)@) + (raised + step.issues));
            lemma_within_weaken(step.issues, cfg.body_span.start + at.end_pos(), bound);
            lemma_within_concat(raised, step.issues, bound);
            raised = raised + step.issues;
            assert(pair_views(pairs@.push((key_chars, item))) =~= pair_views(pairs@).push(
                (key_chars@, item@),
            ));
            assert(zip(keys.push(step.text), item_views.take(k as int + 1)) =~= zip(
                keys,
                item_views.take(k as int),
            ).push((step.text, item_views[k as int])));
            keys = keys.push(step.text);
        }
        pairs.push((key_chars, item));
        k += 1;
    }
    proof {
        assert(item_views.take(k as int) =~= item_views);
        assert(keys + Seq::<Seq<char>>::empty() =~= keys);
        assert(raised + Seq::<IssueView>::empty() =~= raised);
    }
    let ordered = sort_pairs(pairs, descending);
    let ghost goal = sorted_by_key(keys, item_views, descending);
    let mut sorted: Vec<String> = Vec::new();
    let mut i: usize = 0;
    proof {
        lemma_stable_sort_len(zip(keys, item_views), descending);
        assert(pair_views(ordered@).len() == ordered@.len());
        assert(texts(sorted@) =~= goal.take(0));
    }
    while i < ordered.len()
        invariant
            i <= ordered.len(),
            goal.len() == ordered@.len(),
            pair_views(ordered@) == stable_sort(zip(keys, item_views), descending),
            goal == sorted_by_key(keys, item_views, descending),
            texts(sorted@) == goal.take(i as int),
        decreases ordered.len() - i,
    {
        let entry = string_of(&ordered[i].1);
        proof {
            assert(pair_views(ordered@)[i as int] == (ordered@[i as int].0@, ordered@[i as int].1@));
            assert(goal[i as int] == entry@);
            assert(texts(sorted@.push(entry)) =~= texts(sorted@).push(entry@));
            assert(goal.take(i as int + 1) =~= goal.take(i as int).push(goal[i as int]));
        }
        sorted.push(entry);
        i += 1;
    }
    proof {
        assert(goal.take(goal.len() as int) =~= goal);
    }
    sorted
}

} // verus!
