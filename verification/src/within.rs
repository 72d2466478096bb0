//! Where issues lie: the region of every issue that an expansion raises
//! lies within the source text that was expanded.
//!
//! This holds of what expanding means, whatever the commands and the
//! variables are. It is what lets issues that were raised in a part of a
//! text be moved to their place in the whole.

use vstd::prelude::*;
use crate::engine::{lemma_shifted_within, lemma_within_concat, lemma_within_weaken};
use crate::issue::{all_within, IssueView};
use crate::model::{
    ask_host, command_body, command_span, expand, expand_part, expand_segments, for_list,
    for_parse, for_range, for_values, list_items, listing, listing_of, loop_body, loop_config,
    paren_from, parse_integer, parse_list, parse_range, parse_sorted, part, run_command,
    run_eval, run_for, run_handler, run_sort_by, skip_whitespace, sort_keys, CommandHandler,
    Context, LoopPlan, LoopValues, Registry, Store,
};
use crate::parser::{
    lemma_name_end_bounds, lemma_segments_fit, lemma_structural_issues_within, name_end,
    segment_fits, segments, structural_issues, Segment, SegmentKind,
};
use crate::text::{byte_len, lemma_byte_len_bounds, lemma_byte_len_subrange};
use crate::tools::{first_sep, lemma_sep_from_bounds};

verus! {

/// Whether the spans of `ctx` fit each other and the body: the span of the
/// body lies within the span of the command, and the body takes no more
/// bytes than its span has.
pub open spec fn fits(ctx: Context) -> bool {
    &&& ctx.cmd_span.start <= ctx.body_span.start
    &&& ctx.body_span.end_pos() <= ctx.cmd_span.end_pos() <= usize::MAX
    &&& byte_len(ctx.body) <= ctx.body_span.len
}

/// What stands before a part of a text and the part itself take no more
/// bytes than the text.
pub proof fn lemma_parts_fit(s: Seq<char>, from: int, to: int)
    ensures
        byte_len(part(s, 0, from)) + byte_len(part(s, from, to)) <= byte_len(s),
        byte_len(part(s, from, to)) <= byte_len(s),
        part(s, from, to).len() <= s.len(),
{
    if 0 <= from <= to <= s.len() {
        assert(s.subrange(0, from) =~= s.take(from));
        lemma_byte_len_subrange(s, from, to);
    } else if 0 <= from <= s.len() {
        assert(s.subrange(0, from) =~= s.take(from));
        lemma_byte_len_subrange(s, 0, from);
    }
}

/// Issues that lie within a bound still do so with one more that does.
pub proof fn lemma_push_within(vs: Seq<IssueView>, v: IssueView, bound: int)
    requires
        all_within(vs, bound),
        v.span.within(bound),
    ensures
        all_within(vs.push(v), bound),
{
    assert forall|i: int| 0 <= i < vs.push(v).len() implies (#[trigger] vs.push(v)[i]).span.within(
        bound,
    ) by {
        if i < vs.len() {
            assert(vs[i].span.within(bound));
        }
    }
}

/// The issues that expanding a part of a body raises lie within any bound
/// that the part, moved to its place, lies within.
pub proof fn lemma_expand_part_within(
    cmds: Registry,
    vars: Store,
    text: Seq<char>,
    limit: nat,
    shift: int,
    bound: int,
)
    requires
        0 <= shift,
        shift + byte_len(text) <= bound <= usize::MAX,
    ensures
        all_within(expand_part(cmds, vars, text, limit, shift).issues, bound),
    decreases limit, 11nat, 0nat,
{
    if text.len() <= limit {
        law_issues_lie_within_the_source(cmds, vars, text);
        let o = expand(cmds, vars, text);
        lemma_shifted_within(o.issues, shift, byte_len(text) as int);
        lemma_within_weaken(
            crate::issue::shifted_all(o.issues, shift),
            shift + byte_len(text),
            bound,
        );
    }
}

/// Every issue that expanding a source text raises lies within the text:
/// its region ends at or before the end of the text.
pub proof fn law_issues_lie_within_the_source(cmds: Registry, vars: Store, src: Seq<char>)
    requires
        byte_len(src) <= usize::MAX,
    ensures
        all_within(expand(cmds, vars, src).issues, byte_len(src) as int),
    decreases src.len(), 10nat, 0nat,
{
    lemma_byte_len_bounds(src);
    lemma_segments_fit(src, 0, 0, 0);
    let segs = segments(src);
    lemma_structural_issues_within(src, segs);
    lemma_segments_within(cmds, vars, src, segs, segs.len());
    lemma_within_concat(
        structural_issues(src, segs),
        expand_segments(cmds, vars, src, segs, segs.len()).issues,
        byte_len(src) as int,
    );
}

/// The issues that the first `k` segments of a source text raise lie
/// within the text.
proof fn lemma_segments_within(
    cmds: Registry,
    vars: Store,
    src: Seq<char>,
    segs: Seq<Segment>,
    k: nat,
)
    requires
        byte_len(src) <= usize::MAX,
    ensures
        all_within(expand_segments(cmds, vars, src, segs, k).issues, byte_len(src) as int),
    decreases src.len(), 9nat, k,
{
    if k == 0 || k > segs.len() {
    } else {
        lemma_segments_within(cmds, vars, src, segs, (k - 1) as nat);
        let before = expand_segments(cmds, vars, src, segs, (k - 1) as nat);
        let seg = segs[k - 1];
        if seg.kind != SegmentKind::Literal && seg.kind != SegmentKind::StrayClose {
            lemma_command_within(cmds, before.vars, src, seg);
            lemma_within_concat(
                before.issues,
                run_command(cmds, before.vars, src, seg).issues,
                byte_len(src) as int,
            );
        }
    }
}

/// The spans of a command lie within the source text and fit each other.
proof fn lemma_command_spans(src: Seq<char>, seg: Segment)
    requires
        byte_len(src) <= usize::MAX,
        segment_fits(seg, src.len() as int),
        seg.kind == SegmentKind::Command || seg.kind == SegmentKind::OpenCommand,
    ensures
        ({
            let t = src.subrange(seg.start as int, seg.end as int);
            let h = name_end(t, 0);
            let cmd = command_span(src, seg);
            &&& 0 <= h <= t.len()
            &&& cmd.end_pos() <= byte_len(src)
            &&& fits(Context { body: command_body(t), body_span: crate::model::body_span(src, seg), cmd_span: cmd })
            &&& fits(Context { body: t.take(h), body_span: crate::model::name_span(src, seg), cmd_span: cmd })
            &&& command_body(t).len() < src.len()
            &&& t.take(h).len() < src.len()
        }),
{
    let t = src.subrange(seg.start as int, seg.end as int);
    lemma_name_end_bounds(t, 0);
    let h = name_end(t, 0);
    let body = command_body(t);
    let end = if seg.kind == SegmentKind::Command {
        seg.end + 2
    } else {
        seg.end as int
    };
    let at = seg.end - body.len();
    assert(body =~= src.subrange(at, seg.end as int));
    assert(t.take(h) =~= src.subrange(seg.start as int, seg.start + h));
    lemma_byte_len_subrange(src, seg.start - 2, end);
    lemma_byte_len_subrange(src, seg.start - 2, seg.start as int);
    lemma_byte_len_subrange(src, seg.start as int, seg.start + h);
    lemma_byte_len_subrange(src, seg.start + h, at);
    lemma_byte_len_subrange(src, at, seg.end as int);
    lemma_byte_len_subrange(src, seg.end as int, end);
    lemma_byte_len_subrange(src, seg.start - 2, at);
}

/// The issues that a command raises lie within the source text.
proof fn lemma_command_within(cmds: Registry, vars: Store, src: Seq<char>, seg: Segment)
    requires
        byte_len(src) <= usize::MAX,
    ensures
        all_within(run_command(cmds, vars, src, seg).issues, byte_len(src) as int),
    decreases src.len(), 8nat, 0nat,
{
    let t = src.subrange(seg.start as int, seg.end as int);
    let h = name_end(t, 0);
    if !segment_fits(seg, src.len() as int) || seg.kind == SegmentKind::Literal || seg.kind
        == SegmentKind::StrayClose || !(0 <= h <= t.len()) {
    } else {
        lemma_command_spans(src, seg);
        let name = crate::model::command_name(t);
        let body = command_body(t);
        let cmd_span = command_span(src, seg);
        if cmds.handlers.contains_key(name) {
            let ctx = Context { body, body_span: crate::model::body_span(src, seg), cmd_span };
            law_handler_issues_lie_within_the_command(cmds.handlers[name], cmds, vars, ctx);
            lemma_within_weaken(
                run_handler(cmds.handlers[name], cmds, vars, ctx).issues,
                cmd_span.end_pos(),
                byte_len(src) as int,
            );
        } else if body.len() == 0 && cmds.handlers.contains_key(Seq::empty()) {
            let ctx = Context {
                body: t.take(h),
                body_span: crate::model::name_span(src, seg),
                cmd_span,
            };
            law_handler_issues_lie_within_the_command(cmds.handlers[Seq::empty()], cmds, vars, ctx);
            lemma_within_weaken(
                run_handler(cmds.handlers[Seq::empty()], cmds, vars, ctx).issues,
                cmd_span.end_pos(),
                byte_len(src) as int,
            );
        } else {
            assert(cmd_span.within(byte_len(src) as int));
        }
    }
}

/// Every issue that a handler raises lies within the command it was called
/// for, where the spans it was called with fit each other and the body.
pub proof fn law_handler_issues_lie_within_the_command(
    h: CommandHandler,
    cmds: Registry,
    vars: Store,
    ctx: Context,
)
    requires
        fits(ctx),
    ensures
        all_within(run_handler(h, cmds, vars, ctx).issues, ctx.cmd_span.end_pos()),
    decreases ctx.body.len(), 20nat, 0nat,
{
    let bound = ctx.cmd_span.end_pos();
    lemma_eval_within(cmds, vars, ctx);
    let r = run_eval(cmds, vars, ctx);
    lemma_within_weaken(r.issues, ctx.body_span.end_pos(), bound);
    match h {
        CommandHandler::Literal => {},
        CommandHandler::Eval => {},
        CommandHandler::GetVar => {
            if !r.vars.contains_key(r.text) {
                lemma_push_within(
                    r.issues,
                    crate::model::invalid_args_issue(ctx, "unknown variable: "@ + r.text),
                    bound,
                );
            }
        },
        CommandHandler::SetVar => {},
        CommandHandler::Fallback => {},
        CommandHandler::SortBy => {
            lemma_sort_by_within(cmds, vars, ctx);
        },
        CommandHandler::For => {
            lemma_for_within(cmds, vars, ctx);
        },
        CommandHandler::Run => {
            if crate::shell_util::shell_words(r.text)[0].len() == 0 {
                lemma_push_within(
                    r.issues,
                    crate::model::missing_args_issue(ctx, "no process to run given"@),
                    bound,
                );
            } else {
                let key = "run "@ + r.text;
                lemma_host_within(cmds, ctx, key, "while trying to run process"@);
                lemma_within_concat(
                    r.issues,
                    ask_host(cmds, ctx, key, "while trying to run process"@).1,
                    bound,
                );
            }
        },
        CommandHandler::Include => {
            let key = "include "@ + r.text;
            lemma_host_within(cmds, ctx, key, "while trying to read file"@);
            lemma_within_concat(
                r.issues,
                ask_host(cmds, ctx, key, "while trying to read file"@).1,
                bound,
            );
        },
        CommandHandler::Lsdir => {
            let l = listing(ctx, r.text);
            let pieces = crate::escape::split_not_escaped(r.text, ':', crate::parser::ESCAPE);
            lemma_listing_within(ctx, pieces[0], pieces.skip(1), (pieces.len() - 1) as nat);
            let key = "lsdir "@ + l.0.path;
            let doing = "while trying to read the directory "@ + l.0.path;
            lemma_host_within(cmds, ctx, key, doing);
            lemma_within_concat(r.issues, l.1, bound);
            lemma_within_concat(r.issues + l.1, ask_host(cmds, ctx, key, doing).1, bound);
        },
    }
}

/// The issues that expanding the body of a command raises lie within the
/// span of the body.
proof fn lemma_eval_within(cmds: Registry, vars: Store, ctx: Context)
    requires
        fits(ctx),
    ensures
        all_within(run_eval(cmds, vars, ctx).issues, ctx.body_span.end_pos()),
    decreases ctx.body.len(), 19nat, 0nat,
{
    lemma_expand_part_within(
        cmds,
        vars,
        ctx.body,
        ctx.body.len(),
        ctx.body_span.start as int,
        ctx.body_span.end_pos(),
    );
}

/// The issues that asking the host raises have the region of the command.
proof fn lemma_host_within(cmds: Registry, ctx: Context, key: Seq<char>, doing: Seq<char>)
    ensures
        all_within(ask_host(cmds, ctx, key, doing).1, ctx.cmd_span.end_pos()),
{
    let issues = ask_host(cmds, ctx, key, doing).1;
    assert forall|i: int| 0 <= i < issues.len() implies (#[trigger] issues[i]).span.within(
        ctx.cmd_span.end_pos(),
    ) by {
        assert(issues[i].span == ctx.cmd_span);
    }
}

/// The issues that the arguments of a listing raise have the region of the
/// command.
proof fn lemma_listing_within(ctx: Context, path: Seq<char>, args: Seq<Seq<char>>, k: nat)
    ensures
        all_within(listing_of(ctx, path, args, k).1, ctx.cmd_span.end_pos()),
    decreases k,
{
    if k == 0 || k > args.len() {
    } else {
        lemma_listing_within(ctx, path, args, (k - 1) as nat);
        let before = listing_of(ctx, path, args, (k - 1) as nat);
        let arg = args[k - 1];
        let sp = crate::model::space_in(arg, 0);
        let verb = part(arg, 0, sp);
        lemma_push_within(
            before.1,
            crate::model::unknown_verb_issue(ctx, verb),
            ctx.cmd_span.end_pos(),
        );
    }
}

/// The issues that computing the keys of a list raises lie within any
/// bound that the expression of the key, at its place, lies within.
proof fn lemma_sort_keys_within(
    cmds: Registry,
    vars: Store,
    expr: Seq<char>,
    limit: nat,
    shift: int,
    name: Seq<char>,
    items: Seq<Seq<char>>,
    k: int,
    bound: int,
)
    requires
        0 <= shift,
        shift + byte_len(expr) <= bound <= usize::MAX,
    ensures
        all_within(sort_keys(cmds, vars, expr, limit, shift, name, items, k).issues, bound),
    decreases limit, 15nat, items.len() - k,
{
    if k < 0 || k >= items.len() {
    } else {
        let step_vars = vars.insert(name, items[k]);
        lemma_expand_part_within(cmds, step_vars, expr, limit, shift, bound);
        let r = expand_part(cmds, step_vars, expr, limit, shift);
        lemma_sort_keys_within(cmds, r.vars, expr, limit, shift, name, items, k + 1, bound);
        lemma_within_concat(
            r.issues,
            sort_keys(cmds, r.vars, expr, limit, shift, name, items, k + 1).issues,
            bound,
        );
    }
}

/// The issues that a loop over integers raises lie within any bound that
/// the text it repeats, at its place, lies within.
proof fn lemma_for_range_within(
    cmds: Registry,
    vars: Store,
    body: Seq<char>,
    limit: nat,
    shift: int,
    name: Seq<char>,
    from: int,
    to: int,
    bound: int,
)
    requires
        0 <= shift,
        shift + byte_len(body) <= bound <= usize::MAX,
    ensures
        all_within(for_range(cmds, vars, body, limit, shift, name, from, to).issues, bound),
    decreases limit, 15nat, to - from + 1,
{
    if from <= to {
        let step_vars = vars.insert(name, crate::number::decimal(from));
        lemma_expand_part_within(cmds, step_vars, body, limit, shift, bound);
        let r = expand_part(cmds, step_vars, body, limit, shift);
        lemma_for_range_within(cmds, r.vars, body, limit, shift, name, from + 1, to, bound);
        lemma_within_concat(
            r.issues,
            for_range(cmds, r.vars, body, limit, shift, name, from + 1, to).issues,
            bound,
        );
    }
}

/// The issues that a loop over a list raises lie within any bound that the
/// text it repeats, at its place, lies within.
proof fn lemma_for_list_within(
    cmds: Registry,
    vars: Store,
    body: Seq<char>,
    limit: nat,
    shift: int,
    name: Seq<char>,
    items: Seq<Seq<char>>,
    k: int,
    bound: int,
)
    requires
        0 <= shift,
        shift + byte_len(body) <= bound <= usize::MAX,
    ensures
        all_within(for_list(cmds, vars, body, limit, shift, name, items, k).issues, bound),
    decreases limit, 15nat, items.len() - k,
{
    if k < 0 || k >= items.len() {
    } else {
        let step_vars = vars.insert(name, items[k]);
        lemma_expand_part_within(cmds, step_vars, body, limit, shift, bound);
        let r = expand_part(cmds, step_vars, body, limit, shift);
        lemma_for_list_within(cmds, r.vars, body, limit, shift, name, items, k + 1, bound);
        lemma_within_concat(
            r.issues,
            for_list(cmds, r.vars, body, limit, shift, name, items, k + 1).issues,
            bound,
        );
    }
}

/// The issues that sorting by a key raises lie within the command.
proof fn lemma_sort_by_within(cmds: Registry, vars: Store, ctx: Context)
    requires
        fits(ctx),
    ensures
        all_within(run_sort_by(cmds, vars, ctx).issues, ctx.cmd_span.end_pos()),
    decreases ctx.body.len(), 19nat, 0nat,
{
    let b = ctx.body;
    let limit = b.len();
    let base = ctx.body_span.start as int;
    let bound = ctx.body_span.end_pos();
    let colon = first_sep(b, ':', 0);
    lemma_sep_from_bounds(b, ':', 0, 0, false);
    let config = part(b, 0, colon);
    let unsorted = part(b, colon + 1, b.len() as int);
    let e0 = first_sep(config, ' ', 0);
    let name = part(config, 0, e0);
    let e1 = first_sep(config, ' ', e0 + 1);
    let order = part(config, e0 + 1, e1);
    let expr = part(config, e1 + 1, config.len() as int);
    let all = run_sort_by(cmds, vars, ctx).issues;
    if e0 >= config.len() || (!crate::model::is_ascending_word(order)
        && !crate::model::is_descending_word(order)) || e1 >= config.len() || colon >= b.len() {
        assert forall|i: int| 0 <= i < all.len() implies (#[trigger] all[i]).span.within(
            ctx.cmd_span.end_pos(),
        ) by {
            assert(all[i].span == ctx.body_span);
        }
    } else {
        lemma_parts_fit(b, colon + 1, b.len() as int);
        lemma_expand_part_within(
            cmds,
            vars,
            unsorted,
            limit,
            base + byte_len(part(b, 0, colon + 1)),
            bound,
        );
        let list = expand_part(cmds, vars, unsorted, limit, base + byte_len(part(b, 0, colon + 1)));
        lemma_parts_fit(b, e1 + 1, colon);
        assert(expr =~= part(b, e1 + 1, colon));
        let shift = base + byte_len(part(b, 0, e1 + 1));
        lemma_sort_keys_within(
            cmds,
            list.vars.remove(name),
            expr,
            limit,
            shift,
            name,
            list_items(list.text),
            0,
            bound,
        );
        let keyed = sort_keys(
            cmds,
            list.vars.remove(name),
            expr,
            limit,
            shift,
            name,
            list_items(list.text),
            0,
        );
        lemma_within_concat(list.issues, keyed.issues, bound);
        lemma_within_weaken(list.issues + keyed.issues, bound, ctx.cmd_span.end_pos());
    }
}

/// The issues that a loop raises lie within the command.
proof fn lemma_for_within(cmds: Registry, vars: Store, ctx: Context)
    requires
        fits(ctx),
    ensures
        all_within(run_for(cmds, vars, ctx).issues, ctx.cmd_span.end_pos()),
    decreases ctx.body.len(), 19nat, 0nat,
{
    let bound = ctx.body_span.end_pos();
    lemma_for_parse_within(cmds, vars, ctx);
    let p = for_parse(cmds, vars, ctx);
    lemma_within_weaken(p.issues, bound, ctx.cmd_span.end_pos());
    match p.plan {
        Err(e) => {
            lemma_push_within(p.issues, e, ctx.cmd_span.end_pos());
        },
        Ok(plan) => {
            lemma_for_values_within(cmds, p.vars.remove(plan.name), ctx, plan);
            let run = for_values(cmds, p.vars.remove(plan.name), ctx, plan);
            lemma_within_weaken(run.issues, bound, ctx.cmd_span.end_pos());
            lemma_within_concat(p.issues, run.issues, ctx.cmd_span.end_pos());
        },
    }
}

/// Whether the parts of the loop `plan` lie in the body of `ctx`: the text
/// that is repeated, and the expression of the key of a sorted list.
pub open spec fn plan_fits(ctx: Context, plan: LoopPlan) -> bool {
    &&& plan.body_at.start + byte_len(plan.body) <= ctx.body_span.len
    &&& match plan.values {
        LoopValues::Sorted(_, key, key_at, _) => key_at.start + byte_len(key)
            <= ctx.body_span.len,
        _ => true,
    }
}

/// The issues that running a loop over its values raises lie within the
/// span of the body.
proof fn lemma_for_values_within(cmds: Registry, vars: Store, ctx: Context, plan: LoopPlan)
    requires
        fits(ctx),
        plan_fits(ctx, plan),
    ensures
        all_within(for_values(cmds, vars, ctx, plan).issues, ctx.body_span.end_pos()),
    decreases ctx.body.len(), 16nat, 0nat,
{
    let limit = ctx.body.len();
    let shift = ctx.body_span.start + plan.body_at.start;
    let bound = ctx.body_span.end_pos();
    match plan.values {
        LoopValues::Range(a, b) => {
            lemma_for_range_within(
                cmds,
                vars,
                plan.body,
                limit,
                shift,
                plan.name,
                a as int,
                b as int,
                bound,
            );
        },
        LoopValues::List(items) => {
            lemma_for_list_within(cmds, vars, plan.body, limit, shift, plan.name, items, 0, bound);
        },
        LoopValues::Sorted(items, key, key_at, descending) => {
            let key_shift = ctx.body_span.start + key_at.start;
            lemma_sort_keys_within(cmds, vars, key, limit, key_shift, plan.name, items, 0, bound);
            let keyed = sort_keys(cmds, vars, key, limit, key_shift, plan.name, items, 0);
            let sorted = crate::sort::sorted_by_key(keyed.keys, items, descending);
            lemma_for_list_within(
                cmds,
                keyed.vars,
                plan.body,
                limit,
                shift,
                plan.name,
                sorted,
                0,
                bound,
            );
            lemma_within_concat(
                keyed.issues,
                for_list(cmds, keyed.vars, plan.body, limit, shift, plan.name, sorted, 0).issues,
                bound,
            );
        },
    }
}

/// Reading the configuration of a loop raises issues that lie within the
/// span of the body; the issue that stops it lies within the command; and
/// the parts of the loop that it gives lie in the body.
proof fn lemma_for_parse_within(cmds: Registry, vars: Store, ctx: Context)
    requires
        fits(ctx),
    ensures
        all_within(for_parse(cmds, vars, ctx).issues, ctx.body_span.end_pos()),
        match for_parse(cmds, vars, ctx).plan {
            Ok(plan) => plan_fits(ctx, plan),
            Err(e) => e.span.within(ctx.cmd_span.end_pos()),
        },
    decreases ctx.body.len(), 18nat, 0nat,
{
    let b = ctx.body;
    let config = loop_config(b);
    let semi = first_sep(b, ';', 0);
    lemma_sep_from_bounds(b, ';', 0, 0, false);
    lemma_parts_fit(b, 0, semi);
    let body = loop_body(b);
    lemma_parts_fit(b, b.len() - body.len(), b.len() as int);
    assert(body =~= part(b, b.len() - body.len(), b.len() as int));
    let e0 = first_sep(config, ' ', 0);
    let e1 = first_sep(config, ' ', e0 + 1);
    let kind = part(config, e0 + 1, e1);
    if e0 >= config.len() {
    } else if kind == "in"@ {
        lemma_parse_list_within(cmds, vars, ctx, config, e1);
    } else if part(config, e0 + 1, e0 + 11) == "in.sorted("@ {
        lemma_parse_sorted_within(cmds, vars, ctx, config, e0 + 11);
    } else if kind == "from"@ {
        lemma_parse_range_within(cmds, vars, ctx, config, e1);
    } else {
    }
}

/// Reading the list of a loop raises issues that lie within the span of
/// the body.
proof fn lemma_parse_list_within(
    cmds: Registry,
    vars: Store,
    ctx: Context,
    config: Seq<char>,
    e1: int,
)
    requires
        fits(ctx),
        byte_len(config) <= byte_len(ctx.body),
    ensures
        all_within(parse_list(cmds, vars, ctx, config, e1).issues, ctx.body_span.end_pos()),
        parse_list(cmds, vars, ctx, config, e1).values is Ok,
        parse_list(cmds, vars, ctx, config, e1).values->Ok_0 is List,
    decreases ctx.body.len(), 17nat, 0nat,
{
    let at = skip_whitespace(config, e1 + 1);
    lemma_parts_fit(config, at, config.len() as int);
    lemma_expand_part_within(
        cmds,
        vars,
        part(config, at, config.len() as int),
        ctx.body.len(),
        ctx.body_span.start + byte_len(part(config, 0, at)),
        ctx.body_span.end_pos(),
    );
}

/// Reading an integer of a loop raises issues that lie within the span of
/// the body, and the issue that tells that it is none has that span.
proof fn lemma_parse_integer_within(
    cmds: Registry,
    vars: Store,
    ctx: Context,
    config: Seq<char>,
    from: int,
    to: int,
    what: Seq<char>,
)
    requires
        fits(ctx),
        byte_len(config) <= byte_len(ctx.body),
    ensures
        all_within(
            parse_integer(cmds, vars, ctx, config, from, to, what).issues,
            ctx.body_span.end_pos(),
        ),
        parse_integer(cmds, vars, ctx, config, from, to, what).value is Err ==> parse_integer(
            cmds,
            vars,
            ctx,
            config,
            from,
            to,
            what,
        ).value->Err_0.span == ctx.body_span,
    decreases ctx.body.len(), 16nat, 0nat,
{
    lemma_parts_fit(config, from, to);
    lemma_expand_part_within(
        cmds,
        vars,
        part(config, from, to),
        ctx.body.len(),
        ctx.body_span.start + byte_len(part(config, 0, from)),
        ctx.body_span.end_pos(),
    );
}

/// Reading the range of a loop raises issues that lie within the span of
/// the body, and the issue that stops it has that span.
proof fn lemma_parse_range_within(
    cmds: Registry,
    vars: Store,
    ctx: Context,
    config: Seq<char>,
    e1: int,
)
    requires
        fits(ctx),
        byte_len(config) <= byte_len(ctx.body),
    ensures
        all_within(parse_range(cmds, vars, ctx, config, e1).issues, ctx.body_span.end_pos()),
        match parse_range(cmds, vars, ctx, config, e1).values {
            Ok(values) => values is Range,
            Err(e) => e.span == ctx.body_span,
        },
    decreases ctx.body.len(), 17nat, 0nat,
{
    let e2 = first_sep(config, ' ', e1 + 1);
    let e3 = first_sep(config, ' ', e2 + 1);
    let e4 = first_sep(config, ' ', e3 + 1);
    lemma_parse_integer_within(cmds, vars, ctx, config, e1 + 1, e2, "invalid starting integer: "@);
    let first = parse_integer(cmds, vars, ctx, config, e1 + 1, e2, "invalid starting integer: "@);
    lemma_parse_integer_within(
        cmds,
        first.vars,
        ctx,
        config,
        e3 + 1,
        e4,
        "invalid ending integer: "@,
    );
    let last = parse_integer(
        cmds,
        first.vars,
        ctx,
        config,
        e3 + 1,
        e4,
        "invalid ending integer: "@,
    );
    lemma_within_concat(first.issues, last.issues, ctx.body_span.end_pos());
}

/// Reading the sorted list of a loop raises issues that lie within the
/// span of the body; the issue that stops it has the span of the command;
/// and the expression of the key lies in the body.
proof fn lemma_parse_sorted_within(
    cmds: Registry,
    vars: Store,
    ctx: Context,
    config: Seq<char>,
    from: int,
)
    requires
        fits(ctx),
        byte_len(config) <= byte_len(ctx.body),
    ensures
        all_within(parse_sorted(cmds, vars, ctx, config, from).issues, ctx.body_span.end_pos()),
        match parse_sorted(cmds, vars, ctx, config, from).values {
            Ok(values) => match values {
                LoopValues::Sorted(_, key, key_at, _) => key_at.start + byte_len(key)
                    <= ctx.body_span.len,
                _ => false,
            },
            Err(e) => e.span == ctx.cmd_span,
        },
    decreases ctx.body.len(), 17nat, 0nat,
{
    let close = paren_from(config, from, 0, false);
    let inside = part(config, from, close);
    let colon = first_sep(inside, ':', 0);
    let key = part(inside, 0, colon);
    let behind = if close < config.len() {
        close + 1
    } else {
        config.len() as int
    };
    lemma_parts_fit(config, behind, config.len() as int);
    lemma_expand_part_within(
        cmds,
        vars,
        part(config, behind, config.len() as int),
        ctx.body.len(),
        ctx.body_span.start + byte_len(part(config, 0, behind)),
        ctx.body_span.end_pos(),
    );
    lemma_parts_fit(config, from, close);
    lemma_parts_fit(inside, 0, colon);
}

} // verus!
