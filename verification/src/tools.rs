//! Tools for the arguments of commands: cutting a text at separators that
//! stand outside any nested command.

use vstd::prelude::*;
use crate::escape::{auto_escape, escape_pairs, unescape, unescape_pairs, Restore};
use crate::parser::{closes_at, opens_at, ESCAPE};
use crate::text::{byte_len, chars_of, push_all, slice_of, string_of};

verus! {

/// The pieces that the part of `s` from position `i` on falls into when it
/// is cut at every `sep` that is not escaped and stands outside any nested
/// command, the separators left out. The reader is `lvl` commands deep,
/// `esc` says whether the character at `i` is escaped, and the piece being
/// read started at position `start`. A `%)` that closes nothing is passed
/// over.
pub open spec fn args_from(s: Seq<char>, sep: char, i: int, lvl: nat, esc: bool, start: int) -> Seq<
    Seq<char>,
>
    decreases s.len() - i,
{
    if i >= s.len() {
        seq![s.subrange(start, s.len() as int)]
    } else if esc {
        args_from(s, sep, i + 1, lvl, false, start)
    } else if s[i] == ESCAPE {
        args_from(s, sep, i + 1, lvl, true, start)
    } else if opens_at(s, i) {
        args_from(s, sep, i + 1, lvl + 1, false, start)
    } else if closes_at(s, i) {
        args_from(
            s,
            sep,
            i + 1,
            if lvl > 0 {
                (lvl - 1) as nat
            } else {
                0
            },
            false,
            start,
        )
    } else if lvl == 0 && s[i] == sep {
        seq![s.subrange(start, i)] + args_from(s, sep, i + 1, 0, false, i + 1)
    } else {
        args_from(s, sep, i + 1, lvl, false, start)
    }
}

/// The pieces that `s` falls into when it is cut at every `sep` that is
/// not escaped and stands outside any nested command. There is always one
/// piece.
pub open spec fn raw_args(s: Seq<char>, sep: char) -> Seq<Seq<char>> {
    args_from(s, sep, 0, 0, false, 0)
}

/// The position of the first `sep` of `s`, looked for from position `i`
/// on, that is not escaped and stands outside any nested command, or the
/// length of `s` if there is none. The reader is `lvl` commands deep, and
/// `esc` says whether the character at `i` is escaped.
pub open spec fn sep_from(s: Seq<char>, sep: char, i: int, lvl: nat, esc: bool) -> int
    decreases s.len() - i,
{
    if i >= s.len() {
        s.len() as int
    } else if esc {
        sep_from(s, sep, i + 1, lvl, false)
    } else if s[i] == ESCAPE {
        sep_from(s, sep, i + 1, lvl, true)
    } else if opens_at(s, i) {
        sep_from(s, sep, i + 1, lvl + 1, false)
    } else if closes_at(s, i) {
        sep_from(s, sep, i + 1, if lvl > 0 {
            (lvl - 1) as nat
        } else {
            0
        }, false)
    } else if lvl == 0 && s[i] == sep {
        i
    } else {
        sep_from(s, sep, i + 1, lvl, false)
    }
}

/// The position of the first `sep` of `s` at or after position `from` that
/// is not escaped and stands outside any command nested in what follows
/// `from`, or the length of `s` if there is none.
pub open spec fn first_sep(s: Seq<char>, sep: char, from: int) -> int {
    if 0 <= from <= s.len() {
        sep_from(s, sep, from, 0, false)
    } else {
        s.len() as int
    }
}

/// A separator is found at or after the position it is looked for from.
pub proof fn lemma_sep_from_bounds(s: Seq<char>, sep: char, i: int, lvl: nat, esc: bool)
    requires
        0 <= i <= s.len(),
    ensures
        i <= sep_from(s, sep, i, lvl, esc) <= s.len(),
    decreases s.len() - i,
{
    if i >= s.len() {
    } else if esc {
        lemma_sep_from_bounds(s, sep, i + 1, lvl, false);
    } else if s[i] == ESCAPE {
        lemma_sep_from_bounds(s, sep, i + 1, lvl, true);
    } else if opens_at(s, i) {
        lemma_sep_from_bounds(s, sep, i + 1, lvl + 1, false);
    } else if closes_at(s, i) {
        lemma_sep_from_bounds(s, sep, i + 1, if lvl > 0 {
            (lvl - 1) as nat
        } else {
            0
        }, false);
    } else if lvl == 0 && s[i] == sep {
    } else {
        lemma_sep_from_bounds(s, sep, i + 1, lvl, false);
    }
}

/// Finds the first `sep` of `s` at or after position `from` that is not
/// escaped and stands outside any nested command: see [`first_sep`].
pub fn find_sep(s: &Vec<char>, sep: char, from: usize) -> (r: usize)
    requires
        from <= s@.len(),
    ensures
        r == first_sep(s@, sep, from as int),
        from <= r <= s@.len(),
{
    let n = s.len();
    let mut lvl: usize = 0;
    let mut esc = false;
    let mut i: usize = from;
    proof {
        lemma_sep_from_bounds(s@, sep, from as int, 0, false);
    }
    while i < n
        invariant
            n == s@.len(),
            from <= i <= n,
            lvl <= i,
            sep_from(s@, sep, i as int, lvl as nat, esc) == first_sep(s@, sep, from as int),
        decreases n - i,
    {
        let c = s[i];
        let next = if i + 1 < n {
            Some(s[i + 1])
        } else {
            None
        };
        if esc {
            esc = false;
        } else if c == ESCAPE {
            esc = true;
        } else if c == '(' && next == Some('%') {
            lvl += 1;
        } else if c == '%' && next == Some(')') {
            if lvl > 0 {
                lvl -= 1;
            }
        } else if lvl == 0 && c == sep {
            return i;
        }
        i += 1;
    }
    i
}

/// The text `s` with every `\:` turned into `:` and every `\\` into `\`;
/// any other backslash stays.
pub open spec fn unescape_colons(s: Seq<char>) -> Seq<char> {
    unescape(auto_escape(s, ESCAPE), Restore::AllExceptTwo(':', ESCAPE), ESCAPE)
}

/// The texts `pieces`, in order, with `sep` between each two.
pub open spec fn join_with(pieces: Seq<Seq<char>>, sep: char) -> Seq<char>
    decreases pieces.len(),
{
    if pieces.len() == 0 {
        Seq::empty()
    } else if pieces.len() == 1 {
        pieces[0]
    } else {
        join_with(pieces.drop_last(), sep).push(sep) + pieces.last()
    }
}

/// What [`split_args`] gives for `s`: the pieces of `s` between colons
/// outside nested commands, each piece but the first with its colons and
/// backslashes unescaped.
pub open spec fn split_args_spec(s: Seq<char>) -> Seq<Seq<char>> {
    let raw = raw_args(s, ':');
    Seq::new(
        raw.len(),
        |i: int|
            if i == 0 {
                raw[0]
            } else {
                unescape_colons(raw[i])
            },
    )
}

/// What [`splitn_args`] gives for `n` and `s`: nothing if `n` is zero; the
/// pieces of `s` as they stand if there are at most `n`; else the first
/// `n - 1` pieces with their colons and backslashes unescaped, and then all
/// the rest of `s` as it stands, as one piece.
pub open spec fn splitn_args_spec(n: nat, s: Seq<char>) -> Seq<Seq<char>> {
    let raw = raw_args(s, ':');
    if n == 0 {
        Seq::empty()
    } else if raw.len() <= n {
        raw
    } else {
        Seq::new(n, |i: int| if i < n - 1 {
            unescape_colons(raw[i])
        } else {
            join_with(raw.skip(n - 1), ':')
        })
    }
}

/// What [`split_args_with_len`] gives for `s`: each piece of `s` with its
/// colons and backslashes unescaped, and the number of bytes that the piece
/// took in `s`.
pub open spec fn split_args_with_len_spec(s: Seq<char>) -> Seq<(Seq<char>, nat)> {
    let raw = raw_args(s, ':');
    Seq::new(raw.len(), |i: int| (unescape_colons(raw[i]), byte_len(raw[i])))
}

/// What [`splitn_args_with_len`] gives for `n` and `s`: as
/// [`splitn_args_spec`], each piece with the number of bytes that it took
/// in `s`.
pub open spec fn splitn_args_with_len_spec(n: nat, s: Seq<char>) -> Seq<(Seq<char>, nat)> {
    let raw = raw_args(s, ':');
    if n == 0 {
        Seq::empty()
    } else if raw.len() <= n {
        Seq::new(raw.len(), |i: int| (raw[i], byte_len(raw[i])))
    } else {
        Seq::new(
            n,
            |i: int|
                if i < n - 1 {
                    (unescape_colons(raw[i]), byte_len(raw[i]))
                } else {
                    (join_with(raw.skip(n - 1), ':'), byte_len(join_with(raw.skip(n - 1), ':')))
                },
        )
    }
}

/// Cutting gives at least one piece, and every piece is a part of the text
/// read so far or to come.
pub proof fn lemma_args_from(s: Seq<char>, sep: char, i: int, lvl: nat, esc: bool, start: int)
    requires
        0 <= start <= i <= s.len(),
    ensures
        args_from(s, sep, i, lvl, esc, start).len() >= 1,
        forall|k: int|
            0 <= k < args_from(s, sep, i, lvl, esc, start).len() ==> (#[trigger] args_from(
                s,
                sep,
                i,
                lvl,
                esc,
                start,
            )[k]).len() <= s.len() - start,
        join_with(args_from(s, sep, i, lvl, esc, start), sep) == s.subrange(start, s.len() as int),
    decreases s.len() - i,
{
    let all = args_from(s, sep, i, lvl, esc, start);
    if i >= s.len() {
    } else if esc {
        lemma_args_from(s, sep, i + 1, lvl, false, start);
    } else if s[i] == ESCAPE {
        lemma_args_from(s, sep, i + 1, lvl, true, start);
    } else if opens_at(s, i) {
        lemma_args_from(s, sep, i + 1, lvl + 1, false, start);
    } else if closes_at(s, i) {
        lemma_args_from(s, sep, i + 1, if lvl > 0 {
            (lvl - 1) as nat
        } else {
            0
        }, false, start);
    } else if lvl == 0 && s[i] == sep {
        lemma_args_from(s, sep, i + 1, 0, false, i + 1);
        let rest = args_from(s, sep, i + 1, 0, false, i + 1);
        assert forall|k: int| 0 <= k < all.len() implies (#[trigger] all[k]).len() <= s.len()
            - start by {
            if k > 0 {
                assert(all[k] == rest[k - 1]);
            }
        }
        lemma_join_prepend(s.subrange(start, i), rest, sep);
        assert(s.subrange(start, i).push(sep) + s.subrange(i + 1, s.len() as int) =~= s.subrange(
            start,
            s.len() as int,
        ));
    } else {
        lemma_args_from(s, sep, i + 1, lvl, false, start);
    }
}

/// Joining a text and then others is joining them all.
pub proof fn lemma_join_prepend(first: Seq<char>, rest: Seq<Seq<char>>, sep: char)
    requires
        rest.len() >= 1,
    ensures
        join_with(seq![first] + rest, sep) == first.push(sep) + join_with(rest, sep),
    decreases rest.len(),
{
    let all = seq![first] + rest;
    assert(all.drop_last() =~= seq![first] + rest.drop_last());
    assert(all.last() == rest.last());
    if rest.len() == 1 {
        assert(all.drop_last() =~= seq![first]);
        assert(join_with(all.drop_last(), sep) == first);
    } else {
        lemma_join_prepend(first, rest.drop_last(), sep);
        assert((first.push(sep) + join_with(rest.drop_last(), sep)).push(sep) + rest.last()
            =~= first.push(sep) + (join_with(rest.drop_last(), sep).push(sep) + rest.last()));
    }
}

/// Cuts `s` at every `sep` that is not escaped and stands outside any
/// nested command: see [`raw_args`].
pub fn cut_args(s: &Vec<char>, sep: char) -> (r: Vec<Vec<char>>)
    ensures
        r@.map_values(|p: Vec<char>| p@) == raw_args(s@, sep),
        r@.len() >= 1,
{
    let n = s.len();
    let mut r: Vec<Vec<char>> = Vec::new();
    let ghost done: Seq<Seq<char>> = Seq::empty();
    let mut lvl: usize = 0;
    let mut esc = false;
    let mut start: usize = 0;
    let mut i: usize = 0;
    proof {
        assert(done + args_from(s@, sep, 0, 0, false, 0) =~= raw_args(s@, sep));
    }
    while i < n
        invariant
            n == s@.len(),
            start <= i <= n,
            lvl <= i,
            done == r@.map_values(|p: Vec<char>| p@),
            done + args_from(s@, sep, i as int, lvl as nat, esc, start as int) == raw_args(s@, sep),
        decreases n - i,
    {
        let c = s[i];
        let next = if i + 1 < n {
            Some(s[i + 1])
        } else {
            None
        };
        if esc {
            esc = false;
        } else if c == ESCAPE {
            esc = true;
        } else if c == '(' && next == Some('%') {
            lvl += 1;
        } else if c == '%' && next == Some(')') {
            if lvl > 0 {
                lvl -= 1;
            }
        } else if lvl == 0 && c == sep {
            let piece = slice_of(s, start, i);
            proof {
                let rest = args_from(s@, sep, i as int + 1, 0, false, i as int + 1);
                assert(done.push(piece@) + rest =~= done + (seq![piece@] + rest));
                assert(r@.push(piece).map_values(|p: Vec<char>| p@) =~= done.push(piece@));
                done = done.push(piece@);
            }
            r.push(piece);
            start = i + 1;
        }
        i += 1;
    }
    let piece = slice_of(s, start, n);
    proof {
        assert(r@.push(piece).map_values(|p: Vec<char>| p@) =~= done.push(piece@));
        assert(done.push(piece@) =~= done + seq![piece@]);
    }
    r.push(piece);
    r
}

/// Turns every `\:` of `s` into `:` and every `\\` into `\`.
pub fn unescape_colons_of(s: &Vec<char>) -> (r: Vec<char>)
    ensures
        r@ == unescape_colons(s@),
{
    let items = escape_pairs(s, ESCAPE);
    unescape_pairs(&items, Restore::AllExceptTwo(':', ESCAPE), ESCAPE)
}

/// Joins the texts `pieces` from position `from` on, with `sep` between
/// each two.
pub fn join_from(pieces: &Vec<Vec<char>>, from: usize, sep: char) -> (r: Vec<char>)
    requires
        from <= pieces@.len(),
    ensures
        r@ == join_with(pieces@.map_values(|p: Vec<char>| p@).skip(from as int), sep),
{
    let ghost all = pieces@.map_values(|p: Vec<char>| p@).skip(from as int);
    let mut r: Vec<char> = Vec::new();
    let mut i: usize = from;
    while i < pieces.len()
        invariant
            from <= i <= pieces.len(),
            all == pieces@.map_values(|p: Vec<char>| p@).skip(from as int),
            r@ == join_with(all.take(i - from), sep),
        decreases pieces.len() - i,
    {
        proof {
            assert(all.take(i - from + 1).drop_last() =~= all.take(i - from));
            assert(all.take(i - from + 1).last() == pieces@[i as int]@);
            if i > from {
                assert(all.take(i - from).len() >= 1);
            }
        }
        if i > from {
            r.push(sep);
        }
        push_all(&mut r, &pieces[i]);
        proof {
            if i == from {
                assert(all.take(1)[0] == pieces@[i as int]@);
                assert(Seq::<char>::empty() + pieces@[i as int]@ =~= pieces@[i as int]@);
            }
        }
        i += 1;
    }
    proof {
        assert(all.take(all.len() as int) =~= all);
    }
    r
}

/// Splits a string at every colon that is not escaped and stands outside
/// any nested command. In every piece but the first, `\:` becomes `:` and
/// `\\` becomes `\`.
///
/// - `a:b:c` becomes `a`, `b`, `c`
/// - `a:(%b c:d%):e` becomes `a`, `(%b c:d%)`, `e`
/// - `a:\:b:c` becomes `a`, `:b`, `c`
/// - `a:\(%b:c` becomes `a`, `\(%b`, `c`
pub fn split_args(s: String) -> (r: Vec<String>)
    ensures
        crate::escape::texts(r@) == split_args_spec(s@),
{
    let src = chars_of(s.as_str());
    let raw = cut_args(&src, ':');
    let mut r: Vec<String> = Vec::new();
    let ghost goal = split_args_spec(s@);
    let mut i: usize = 0;
    while i < raw.len()
        invariant
            i <= raw.len(),
            src@ == s@,
            raw@.map_values(|p: Vec<char>| p@) == raw_args(s@, ':'),
            goal == split_args_spec(s@),
            crate::escape::texts(r@) == goal.take(i as int),
        decreases raw.len() - i,
    {
        let piece = if i == 0 {
            string_of(&raw[i])
        } else {
            string_of(&unescape_colons_of(&raw[i]))
        };
        proof {
            assert(raw@.map_values(|p: Vec<char>| p@).len() == raw@.len());
            assert(raw@.map_values(|p: Vec<char>| p@)[i as int] == raw@[i as int]@);
            assert(goal.len() == raw@.len());
            assert(goal[i as int] == piece@);
            assert(crate::escape::texts(r@.push(piece)) =~= crate::escape::texts(r@).push(piece@));
            assert(goal.take(i as int + 1) =~= goal.take(i as int).push(goal[i as int]));
        }
        r.push(piece);
        i += 1;
    }
    proof {
        assert(raw@.map_values(|p: Vec<char>| p@).len() == raw@.len());
        assert(goal.take(goal.len() as int) =~= goal);
    }
    r
}

/// Like [`split_args`], but makes at most `n` pieces: where there are
/// more, the last piece is all the rest of the string, as it stands. Where
/// there are no more than `n`, the pieces are given as they stand.
///
/// - `a:b:c:d` with `n = 3` becomes `a`, `b`, `c:d`
/// - `a:b:c:\:d` with `n = 3` becomes `a`, `b`, `c:\:d`
pub fn splitn_args(n: usize, s: String) -> (r: Vec<String>)
    ensures
        crate::escape::texts(r@) == splitn_args_spec(n as nat, s@),
{
    let src = chars_of(s.as_str());
    let raw = cut_args(&src, ':');
    let mut r: Vec<String> = Vec::new();
    let ghost goal = splitn_args_spec(n as nat, s@);
    if n == 0 {
        assert(crate::escape::texts(r@) =~= goal);
        return r;
    }
    let many = raw.len() > n;
    let count = if many {
        n
    } else {
        raw.len()
    };
    let mut i: usize = 0;
    proof {
        assert(raw@.map_values(|p: Vec<char>| p@).len() == raw@.len());
    }
    while i < count
        invariant
            i <= count,
            n > 0,
            many == (raw@.len() > n),
            count == if many {
                n as int
            } else {
                raw@.len() as int
            },
            goal.len() == count,
            src@ == s@,
            raw@.map_values(|p: Vec<char>| p@) == raw_args(s@, ':'),
            goal == splitn_args_spec(n as nat, s@),
            crate::escape::texts(r@) == goal.take(i as int),
        decreases count - i,
    {
        let piece = if !many {
            string_of(&raw[i])
        } else if i < n - 1 {
            string_of(&unescape_colons_of(&raw[i]))
        } else {
            string_of(&join_from(&raw, n - 1, ':'))
        };
        proof {
            assert(raw@.map_values(|p: Vec<char>| p@).len() == raw@.len());
            assert(raw@.map_values(|p: Vec<char>| p@)[i as int] == raw@[i as int]@);
            assert(goal[i as int] == piece@);
            assert(crate::escape::texts(r@.push(piece)) =~= crate::escape::texts(r@).push(piece@));
            assert(goal.take(i as int + 1) =~= goal.take(i as int).push(goal[i as int]));
        }
        r.push(piece);
        i += 1;
    }
    proof {
        assert(goal.take(goal.len() as int) =~= goal);
    }
    r
}

/// The texts and lengths of a list of pieces.
pub open spec fn sized_texts(v: Seq<(String, usize)>) -> Seq<(Seq<char>, nat)> {
    v.map_values(|p: (String, usize)| (p.0@, p.1 as nat))
}

/// Every piece of a text is a part of it, so it takes no more bytes.
pub proof fn lemma_raw_args_bytes(s: Seq<char>, sep: char, i: int, lvl: nat, esc: bool, start: int)
    requires
        0 <= start <= i <= s.len(),
    ensures
        forall|k: int|
            0 <= k < args_from(s, sep, i, lvl, esc, start).len() ==> byte_len(
                #[trigger] args_from(s, sep, i, lvl, esc, start)[k],
            ) <= byte_len(s),
    decreases s.len() - i,
{
    let all = args_from(s, sep, i, lvl, esc, start);
    if i >= s.len() {
        crate::text::lemma_byte_len_subrange(s, start, s.len() as int);
        assert(all.len() == 1);
        assert(all[0] == s.subrange(start, s.len() as int));
    } else if esc {
        lemma_raw_args_bytes(s, sep, i + 1, lvl, false, start);
        assert(all == args_from(s, sep, i + 1, lvl, false, start));
    } else if s[i] == ESCAPE {
        lemma_raw_args_bytes(s, sep, i + 1, lvl, true, start);
        assert(all == args_from(s, sep, i + 1, lvl, true, start));
    } else if opens_at(s, i) {
        lemma_raw_args_bytes(s, sep, i + 1, lvl + 1, false, start);
        assert(all == args_from(s, sep, i + 1, lvl + 1, false, start));
    } else if closes_at(s, i) {
        let down: nat = if lvl > 0 {
            (lvl - 1) as nat
        } else {
            0
        };
        lemma_raw_args_bytes(s, sep, i + 1, down, false, start);
        assert(all == args_from(s, sep, i + 1, down, false, start));
    } else if lvl == 0 && s[i] == sep {
        lemma_raw_args_bytes(s, sep, i + 1, 0, false, i + 1);
        crate::text::lemma_byte_len_subrange(s, start, i);
        crate::text::lemma_byte_len_subrange(s, i, s.len() as int);
        let rest = args_from(s, sep, i + 1, 0, false, i + 1);
        assert(all == seq![s.subrange(start, i)] + rest);
        assert forall|k: int| 0 <= k < all.len() implies byte_len(#[trigger] all[k]) <= byte_len(
            s,
        ) by {
            if k > 0 {
                assert(all[k] == rest[k - 1]);
            } else {
                assert(all[0] == s.subrange(start, i));
            }
        }
    } else {
        lemma_raw_args_bytes(s, sep, i + 1, lvl, false, start);
        assert(all == args_from(s, sep, i + 1, lvl, false, start));
    }
    assert forall|k: int| 0 <= k < all.len() implies byte_len(#[trigger] all[k]) <= byte_len(s) by {}
}

/// Like [`split_args`], but gives with each piece the number of bytes that
/// it took in the string, and unescapes the first piece too.
pub fn split_args_with_len(s: String) -> (r: Vec<(String, usize)>)
    ensures
        sized_texts(r@) == split_args_with_len_spec(s@),
{
    let src = chars_of(s.as_str());
    let raw = cut_args(&src, ':');
    let mut r: Vec<(String, usize)> = Vec::new();
    let ghost goal = split_args_with_len_spec(s@);
    let mut i: usize = 0;
    proof {
        lemma_raw_args_bytes(s@, ':', 0, 0, false, 0);
        assert(sized_texts(r@) =~= goal.take(0));
    }
    while i < raw.len()
        invariant
            i <= raw.len(),
            src@ == s@,
            byte_len(s@) <= usize::MAX,
            raw@.map_values(|p: Vec<char>| p@) == raw_args(s@, ':'),
            forall|k: int|
                0 <= k < raw_args(s@, ':').len() ==> byte_len(#[trigger] raw_args(s@, ':')[k])
                    <= byte_len(s@),
            goal == split_args_with_len_spec(s@),
            sized_texts(r@) == goal.take(i as int),
        decreases raw.len() - i,
    {
        proof {
            assert(raw@.map_values(|p: Vec<char>| p@).len() == raw@.len());
            assert(raw@.map_values(|p: Vec<char>| p@)[i as int] == raw@[i as int]@);
            assert(byte_len(raw_args(s@, ':')[i as int]) <= byte_len(s@));
        }
        let len = crate::text::byte_len_of(&raw[i]);
        let piece = (string_of(&unescape_colons_of(&raw[i])), len);
        proof {
            assert(goal.len() == raw@.len());
            assert(goal[i as int] == (piece.0@, piece.1 as nat));
            assert(sized_texts(r@.push(piece)) =~= sized_texts(r@).push((piece.0@, piece.1 as nat)));
            assert(goal.take(i as int + 1) =~= goal.take(i as int).push(goal[i as int]));
        }
        r.push(piece);
        i += 1;
    }
    proof {
        assert(raw@.map_values(|p: Vec<char>| p@).len() == raw@.len());
        assert(goal.take(goal.len() as int) =~= goal);
    }
    r
}

/// Like [`splitn_args`], but gives with each piece the number of bytes
/// that it took in the string.
pub fn splitn_args_with_len(n: usize, s: String) -> (r: Vec<(String, usize)>)
    ensures
        sized_texts(r@) == splitn_args_with_len_spec(n as nat, s@),
{
    let src = chars_of(s.as_str());
    let raw = cut_args(&src, ':');
    let mut r: Vec<(String, usize)> = Vec::new();
    let ghost goal = splitn_args_with_len_spec(n as nat, s@);
    if n == 0 {
        assert(sized_texts(r@) =~= goal);
        return r;
    }
    let many = raw.len() > n;
    let count = if many {
        n
    } else {
        raw.len()
    };
    let mut i: usize = 0;
    proof {
        assert(raw@.map_values(|p: Vec<char>| p@).len() == raw@.len());
        lemma_raw_args_bytes(s@, ':', 0, 0, false, 0);
        assert(sized_texts(r@) =~= goal.take(0));
        lemma_join_suffix(s@, ':', 0, 0, false, 0, n - 1);
    }
    while i < count
        invariant
            i <= count,
            n > 0,
            many == (raw@.len() > n),
            count == if many {
                n as int
            } else {
                raw@.len() as int
            },
            goal.len() == count,
            src@ == s@,
            byte_len(s@) <= usize::MAX,
            raw@.map_values(|p: Vec<char>| p@) == raw_args(s@, ':'),
            forall|k: int|
                0 <= k < raw_args(s@, ':').len() ==> byte_len(#[trigger] raw_args(s@, ':')[k])
                    <= byte_len(s@),
            many ==> byte_len(join_with(raw_args(s@, ':').skip(n - 1), ':')) <= byte_len(s@),
            goal == splitn_args_with_len_spec(n as nat, s@),
            sized_texts(r@) == goal.take(i as int),
        decreases count - i,
    {
        proof {
            assert(raw@.map_values(|p: Vec<char>| p@).len() == raw@.len());
            assert(raw@.map_values(|p: Vec<char>| p@)[i as int] == raw@[i as int]@);
            assert(byte_len(raw_args(s@, ':')[i as int]) <= byte_len(s@));
        }
        let piece = if !many {
            let len = crate::text::byte_len_of(&raw[i]);
            (string_of(&raw[i]), len)
        } else if i < n - 1 {
            let len = crate::text::byte_len_of(&raw[i]);
            (string_of(&unescape_colons_of(&raw[i])), len)
        } else {
            let tail = join_from(&raw, n - 1, ':');
            let len = crate::text::byte_len_of(&tail);
            (string_of(&tail), len)
        };
        proof {
            assert(goal[i as int] == (piece.0@, piece.1 as nat));
            assert(sized_texts(r@.push(piece)) =~= sized_texts(r@).push((piece.0@, piece.1 as nat)));
            assert(goal.take(i as int + 1) =~= goal.take(i as int).push(goal[i as int]));
        }
        r.push(piece);
        i += 1;
    }
    proof {
        assert(goal.take(goal.len() as int) =~= goal);
    }
    r
}

/// The pieces of a text from the piece `j` on, joined again, are the end
/// of the text: so they take no more bytes than the text.
pub proof fn lemma_join_suffix(
    s: Seq<char>,
    sep: char,
    i: int,
    lvl: nat,
    esc: bool,
    start: int,
    j: int,
)
    requires
        0 <= start <= i <= s.len(),
        0 <= j,
    ensures
        j < args_from(s, sep, i, lvl, esc, start).len() ==> byte_len(
            join_with(args_from(s, sep, i, lvl, esc, start).skip(j), sep),
        ) <= byte_len(s),
    decreases s.len() - i,
{
    let all = args_from(s, sep, i, lvl, esc, start);
    if j == 0 {
        lemma_args_from(s, sep, i, lvl, esc, start);
        assert(all.skip(0) =~= all);
        crate::text::lemma_byte_len_subrange(s, start, s.len() as int);
    } else if i >= s.len() {
    } else if esc {
        lemma_join_suffix(s, sep, i + 1, lvl, false, start, j);
    } else if s[i] == ESCAPE {
        lemma_join_suffix(s, sep, i + 1, lvl, true, start, j);
    } else if opens_at(s, i) {
        lemma_join_suffix(s, sep, i + 1, lvl + 1, false, start, j);
    } else if closes_at(s, i) {
        lemma_join_suffix(s, sep, i + 1, if lvl > 0 {
            (lvl - 1) as nat
        } else {
            0
        }, false, start, j);
    } else if lvl == 0 && s[i] == sep {
        lemma_join_suffix(s, sep, i + 1, 0, false, i + 1, j - 1);
        let rest = args_from(s, sep, i + 1, 0, false, i + 1);
        if j < all.len() {
            assert(all.skip(j) =~= rest.skip(j - 1));
        }
    } else {
        lemma_join_suffix(s, sep, i + 1, lvl, false, start, j);
    }
}

} // verus!
