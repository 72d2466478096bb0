//! Escape-aware scanning.
//!
//! A text in which one character, the escape character, takes the usual
//! meaning from the character after it is first turned into a sequence of
//! pairs: each pair is a character and a mark that says whether it was
//! escaped. The escape characters themselves are gone from that sequence.
//! Everything else works on such pairs: splitting at separators that are not
//! escaped, taking a nested group, and turning pairs back into text, with
//! the escape character put back only where asked.

use vstd::prelude::*;

verus! {

/// The pairs of `s`: any character right after an unescaped escape
/// character `esc` is marked as escaped, and that escape character is
/// dropped. An escape character at the very end escapes nothing and stands
/// for itself.
pub open spec fn auto_escape(s: Seq<char>, esc: char) -> Seq<(bool, char)>
    decreases s.len(),
{
    if s.len() == 0 {
        Seq::empty()
    } else if s[0] == esc && s.len() > 1 {
        seq![(true, s[1])] + auto_escape(s.skip(2), esc)
    } else {
        seq![(false, s[0])] + auto_escape(s.skip(1), esc)
    }
}

/// For which escaped characters the escape character is put back when pairs
/// are turned into text again.
#[derive(Debug, Copy, Clone, PartialEq, Eq)]
pub enum Restore {
    /// For every character.
    All,
    /// For every character but the given one.
    AllExcept(char),
    /// For every character but the two given ones.
    AllExceptTwo(char, char),
    /// For every character that may stand in a command name: for all but
    /// white space and `%`, `(`, `)`, `{`, `}`.
    AllExceptCommandChars,
}

/// Tests if a character may not appear inside a command name: white space
/// and `%`, `(`, `)`, `{`, `}` may not.
pub open spec fn is_command_char(c: char) -> bool {
    crate::text::is_whitespace(c) || c == '%' || c == '(' || c == ')' || c == '{' || c == '}'
}

impl Restore {
    /// Whether the escape character is put back before an escaped `c`.
    pub open spec fn keeps(self, c: char) -> bool {
        match self {
            Restore::All => true,
            Restore::AllExcept(x) => c != x,
            Restore::AllExceptTwo(x, y) => c != x && c != y,
            Restore::AllExceptCommandChars => !is_command_char(c),
        }
    }

    /// Whether the escape character is put back before an escaped `c`.
    pub fn restores(&self, c: char) -> (r: bool)
        ensures
            r == self.keeps(c),
    {
        match self {
            Restore::All => true,
            Restore::AllExcept(x) => c != *x,
            Restore::AllExceptTwo(x, y) => c != *x && c != *y,
            Restore::AllExceptCommandChars => !(crate::text::char_is_whitespace(c) || c == '%' || c
                == '(' || c == ')' || c == '{' || c == '}'),
        }
    }
}

/// The text of `items`: the characters in order, with the escape character
/// `esc` put back before each escaped character that `restore` keeps it for.
pub open spec fn unescape(items: Seq<(bool, char)>, restore: Restore, esc: char) -> Seq<char>
    decreases items.len(),
{
    if items.len() == 0 {
        Seq::empty()
    } else {
        let before = unescape(items.drop_last(), restore, esc);
        let (escaped, c) = items.last();
        if escaped && restore.keeps(c) {
            before.push(esc).push(c)
        } else {
            before.push(c)
        }
    }
}

/// The number of characters that `items` took in the text they were made
/// from: two for an escaped character, one for any other.
pub open spec fn raw_len(items: Seq<(bool, char)>) -> nat
    decreases items.len(),
{
    if items.len() == 0 {
        0
    } else {
        raw_len(items.drop_last()) + if items.last().0 {
            2nat
        } else {
            1nat
        }
    }
}

/// The text of a concatenation is the concatenation of the texts.
pub proof fn lemma_unescape_concat(
    a: Seq<(bool, char)>,
    b: Seq<(bool, char)>,
    restore: Restore,
    esc: char,
)
    ensures
        unescape(a + b, restore, esc) == unescape(a, restore, esc) + unescape(b, restore, esc),
    decreases b.len(),
{
    if b.len() == 0 {
        assert(a + b =~= a);
        assert(unescape(a, restore, esc) + unescape(b, restore, esc) =~= unescape(
            a,
            restore,
            esc,
        ));
    } else {
        lemma_unescape_concat(a, b.drop_last(), restore, esc);
        assert((a + b).drop_last() =~= a + b.drop_last());
        assert((a + b).last() == b.last());
        let ab = unescape(a + b.drop_last(), restore, esc);
        let ua = unescape(a, restore, esc);
        let ub = unescape(b.drop_last(), restore, esc);
        let (escaped, c) = b.last();
        if escaped && restore.keeps(c) {
            assert((ua + ub).push(esc).push(c) =~= ua + ub.push(esc).push(c));
        } else {
            assert((ua + ub).push(c) =~= ua + ub.push(c));
        }
    }
}

/// Putting every escape character back gives the text that the pairs were
/// made from.
pub proof fn lemma_auto_escape_round_trip(s: Seq<char>, esc: char)
    ensures
        unescape(auto_escape(s, esc), Restore::All, esc) == s,
        raw_len(auto_escape(s, esc)) == s.len(),
        auto_escape(s, esc).len() <= s.len(),
    decreases s.len(),
{
    if s.len() == 0 {
    } else if s[0] == esc && s.len() > 1 {
        let first = seq![(true, s[1])];
        let rest = auto_escape(s.skip(2), esc);
        lemma_auto_escape_round_trip(s.skip(2), esc);
        lemma_unescape_concat(first, rest, Restore::All, esc);
        lemma_raw_len_concat(first, rest);
        assert(first.drop_last() =~= Seq::<(bool, char)>::empty());
        assert(unescape(first, Restore::All, esc) =~= seq![esc, s[1]]) by {
            reveal_with_fuel(unescape, 2);
        }
        assert(raw_len(first) == 2) by {
            reveal_with_fuel(raw_len, 2);
        }
        assert(seq![esc, s[1]] + s.skip(2) =~= s);
    } else {
        let first = seq![(false, s[0])];
        let rest = auto_escape(s.skip(1), esc);
        lemma_auto_escape_round_trip(s.skip(1), esc);
        lemma_unescape_concat(first, rest, Restore::All, esc);
        lemma_raw_len_concat(first, rest);
        assert(first.drop_last() =~= Seq::<(bool, char)>::empty());
        assert(unescape(first, Restore::All, esc) =~= seq![s[0]]) by {
            reveal_with_fuel(unescape, 2);
        }
        assert(raw_len(first) == 1) by {
            reveal_with_fuel(raw_len, 2);
        }
        assert(seq![s[0]] + s.skip(1) =~= s);
    }
}

/// The raw length of a concatenation is the sum of the raw lengths.
pub proof fn lemma_raw_len_concat(a: Seq<(bool, char)>, b: Seq<(bool, char)>)
    ensures
        raw_len(a + b) == raw_len(a) + raw_len(b),
    decreases b.len(),
{
    if b.len() == 0 {
        assert(a + b =~= a);
    } else {
        lemma_raw_len_concat(a, b.drop_last());
        assert((a + b).drop_last() =~= a + b.drop_last());
        assert((a + b).last() == b.last());
    }
}

/// Text made from pairs is no longer than the text the pairs were made
/// from, and no shorter than the number of pairs.
pub proof fn lemma_unescape_len(items: Seq<(bool, char)>, restore: Restore, esc: char)
    ensures
        items.len() <= unescape(items, restore, esc).len() <= raw_len(items),
    decreases items.len(),
{
    if items.len() > 0 {
        lemma_unescape_len(items.drop_last(), restore, esc);
    }
}

/// Turns `s` into pairs of a mark and a character: see [`auto_escape`].
pub fn escape_pairs(s: &Vec<char>, esc: char) -> (r: Vec<(bool, char)>)
    ensures
        r@ == auto_escape(s@, esc),
{
    let mut r: Vec<(bool, char)> = Vec::new();
    let n = s.len();
    let mut i: usize = 0;
    proof {
        assert(s@.skip(0) =~= s@);
        assert(r@ + auto_escape(s@, esc) =~= auto_escape(s@, esc));
    }
    while i < n
        invariant
            i <= n,
            n == s@.len(),
            r@ + auto_escape(s@.skip(i as int), esc) == auto_escape(s@, esc),
        decreases n - i,
    {
        let ghost rest = s@.skip(i as int);
        if s[i] == esc && i + 1 < n {
            proof {
                assert(rest.skip(2) =~= s@.skip(i as int + 2));
                assert(r@.push((true, s@[i as int + 1])) + auto_escape(rest.skip(2), esc) =~= r@
                    + (seq![(true, rest[1])] + auto_escape(rest.skip(2), esc)));
            }
            r.push((true, s[i + 1]));
            i += 2;
        } else {
            proof {
                assert(rest.skip(1) =~= s@.skip(i as int + 1));
                assert(r@.push((false, s@[i as int])) + auto_escape(rest.skip(1), esc) =~= r@ + (
                seq![(false, rest[0])] + auto_escape(rest.skip(1), esc)));
            }
            r.push((false, s[i]));
            i += 1;
        }
    }
    proof {
        assert(r@ + Seq::<(bool, char)>::empty() =~= r@);
    }
    r
}

/// Turns pairs into text: see [`unescape`].
pub fn unescape_pairs(items: &Vec<(bool, char)>, restore: Restore, esc: char) -> (r: Vec<char>)
    ensures
        r@ == unescape(items@, restore, esc),
{
    let mut r: Vec<char> = Vec::new();
    let mut i: usize = 0;
    while i < items.len()
        invariant
            i <= items.len(),
            r@ == unescape(items@.take(i as int), restore, esc),
        decreases items.len() - i,
    {
        proof {
            assert(items@.take(i as int + 1).drop_last() =~= items@.take(i as int));
        }
        let (escaped, c) = items[i];
        if escaped && restore.restores(c) {
            r.push(esc);
        }
        r.push(c);
        i += 1;
    }
    proof {
        assert(items@.take(items@.len() as int) =~= items@);
    }
    r
}

/// The pieces that the part of `items` from position `from` on falls into
/// when it is cut at every unescaped `sep`, the separators left out, where
/// the piece being read started at `start` and at most `left` pieces are
/// still to be made: the last piece allowed takes all that is left,
/// separators included.
pub open spec fn pieces_from(
    items: Seq<(bool, char)>,
    sep: char,
    from: int,
    start: int,
    left: nat,
) -> Seq<Seq<(bool, char)>>
    decreases items.len() - from,
{
    if left == 0 {
        Seq::empty()
    } else if from >= items.len() || left == 1 {
        seq![items.subrange(start, items.len() as int)]
    } else if items[from] == (false, sep) {
        seq![items.subrange(start, from)] + pieces_from(
            items,
            sep,
            from + 1,
            from + 1,
            (left - 1) as nat,
        )
    } else {
        pieces_from(items, sep, from + 1, start, left)
    }
}

/// The pieces that `items` falls into when it is cut at unescaped
/// separators `sep`, at most `n` of them. There is always one piece,
/// unless `n` is zero.
pub open spec fn splitn_items(items: Seq<(bool, char)>, sep: char, n: nat) -> Seq<
    Seq<(bool, char)>,
> {
    pieces_from(items, sep, 0, 0, n)
}

/// The pieces that `items` falls into when it is cut at every unescaped
/// separator `sep`.
pub open spec fn split_items(items: Seq<(bool, char)>, sep: char) -> Seq<Seq<(bool, char)>> {
    splitn_items(items, sep, items.len() + 1)
}

/// The pieces that the text `s` falls into when it is cut at every `sep`
/// that is not escaped by `esc`, at most `n` of them. In each piece an
/// escaped `sep` stands without its escape character; every other escape
/// character stays.
pub open spec fn splitn_not_escaped(s: Seq<char>, n: nat, sep: char, esc: char) -> Seq<
    Seq<char>,
> {
    splitn_items(auto_escape(s, esc), sep, n).map_values(
        |p: Seq<(bool, char)>| unescape(p, Restore::AllExcept(sep), esc),
    )
}

/// The pieces that the text `s` falls into when it is cut at every `sep`
/// that is not escaped by `esc`.
pub open spec fn split_not_escaped(s: Seq<char>, sep: char, esc: char) -> Seq<Seq<char>> {
    splitn_not_escaped(s, s.len() + 1, sep, esc)
}

/// The texts of a list of strings.
pub open spec fn texts(v: Seq<String>) -> Seq<Seq<char>> {
    v.map_values(|s: String| s@)
}

/// The raw length of a part is at most that of the whole.
pub proof fn lemma_raw_len_subrange(items: Seq<(bool, char)>, a: int, b: int)
    requires
        0 <= a <= b <= items.len(),
    ensures
        raw_len(items.subrange(a, b)) <= raw_len(items),
{
    assert(items =~= items.take(a) + items.subrange(a, b) + items.skip(b));
    lemma_raw_len_concat(items.take(a) + items.subrange(a, b), items.skip(b));
    lemma_raw_len_concat(items.take(a), items.subrange(a, b));
}

/// Cutting gives at least one piece and at most `left`, and every piece is
/// a part of what was cut.
pub proof fn lemma_pieces_from(
    items: Seq<(bool, char)>,
    sep: char,
    from: int,
    start: int,
    left: nat,
)
    requires
        0 <= start <= from <= items.len(),
    ensures
        pieces_from(items, sep, from, start, left).len() <= left,
        left > 0 ==> pieces_from(items, sep, from, start, left).len() >= 1,
        pieces_from(items, sep, from, start, left).len() <= items.len() - from + 1,
        forall|i: int|
            0 <= i < pieces_from(items, sep, from, start, left).len() ==> raw_len(
                #[trigger] pieces_from(items, sep, from, start, left)[i],
            ) <= raw_len(items),
    decreases items.len() - from,
{
    let all = pieces_from(items, sep, from, start, left);
    if left == 0 {
    } else if from >= items.len() || left == 1 {
        lemma_raw_len_subrange(items, start, items.len() as int);
    } else if items[from] == (false, sep) {
        lemma_pieces_from(items, sep, from + 1, from + 1, (left - 1) as nat);
        lemma_raw_len_subrange(items, start, from);
        let rest = pieces_from(items, sep, from + 1, from + 1, (left - 1) as nat);
        assert forall|i: int| 0 <= i < all.len() implies raw_len(#[trigger] all[i]) <= raw_len(
            items,
        ) by {
            if i > 0 {
                assert(all[i] == rest[i - 1]);
            }
        }
    } else {
        lemma_pieces_from(items, sep, from + 1, start, left);
    }
}

/// Every piece of a text that was cut is at most as long as the text.
pub proof fn lemma_splitn_not_escaped(s: Seq<char>, n: nat, sep: char, esc: char)
    ensures
        splitn_not_escaped(s, n, sep, esc).len() <= n,
        n > 0 ==> splitn_not_escaped(s, n, sep, esc).len() >= 1,
        forall|i: int|
            0 <= i < splitn_not_escaped(s, n, sep, esc).len() ==> (
            #[trigger] splitn_not_escaped(s, n, sep, esc)[i]).len() <= s.len(),
{
    let items = auto_escape(s, esc);
    lemma_auto_escape_round_trip(s, esc);
    lemma_pieces_from(items, sep, 0, 0, n);
    let pieces = splitn_items(items, sep, n);
    assert forall|i: int| 0 <= i < splitn_not_escaped(s, n, sep, esc).len() implies (
    #[trigger] splitn_not_escaped(s, n, sep, esc)[i]).len() <= s.len() by {
        lemma_unescape_len(pieces[i], Restore::AllExcept(sep), esc);
    }
}

/// The most pieces that cutting `len` pairs may give under `limit`: the
/// limit where there is one, else one more than there are pairs, which is
/// never reached.
pub open spec fn piece_bound(limit: Option<usize>, len: nat) -> nat {
    match limit {
        Some(n) => n as nat,
        None => len + 1,
    }
}

/// Cuts `items` at unescaped separators `sep`, into at most `limit` pieces
/// where a limit is given: see [`splitn_items`] and [`split_items`].
pub fn cut_pairs(items: &Vec<(bool, char)>, sep: char, limit: Option<usize>) -> (r: Vec<
    Vec<(bool, char)>,
>)
    ensures
        r@.map_values(|p: Vec<(bool, char)>| p@) == splitn_items(
            items@,
            sep,
            piece_bound(limit, items@.len()),
        ),
{
    let mut r: Vec<Vec<(bool, char)>> = Vec::new();
    let ghost done: Seq<Seq<(bool, char)>> = Seq::empty();
    let ghost all = splitn_items(items@, sep, piece_bound(limit, items@.len()));
    let mut left: usize = match limit {
        Some(n) => n,
        None => 0,
    };
    if limit.is_some() && left == 0 {
        assert(r@.map_values(|p: Vec<(bool, char)>| p@) =~= Seq::empty());
        return r;
    }
    let len = items.len();
    let mut cur: Vec<(bool, char)> = Vec::new();
    let ghost mut start: int = 0;
    let ghost mut room: nat = piece_bound(limit, items@.len());
    let mut i: usize = 0;
    proof {
        assert(done + pieces_from(items@, sep, 0, 0, room) =~= all);
        assert(items@.subrange(0, 0) =~= cur@);
    }
    while i < len
        invariant
            i <= len,
            len == items@.len(),
            room >= 1,
            limit is Some ==> room == left,
            limit is None ==> room > len - i,
            0 <= start <= i,
            done == r@.map_values(|p: Vec<(bool, char)>| p@),
            cur@ == items@.subrange(start, i as int),
            done + pieces_from(items@, sep, i as int, start, room) == all,
        decreases len - i,
    {
        let item = items[i];
        if (limit.is_none() || left > 1) && !item.0 && item.1 == sep {
            proof {
                let rest = pieces_from(items@, sep, i as int + 1, i as int + 1, (room - 1) as nat);
                assert(done.push(cur@) + rest =~= done + (seq![cur@] + rest));
                assert(r@.push(cur).map_values(|p: Vec<(bool, char)>| p@) =~= done.push(cur@));
                done = done.push(cur@);
                start = i as int + 1;
                room = (room - 1) as nat;
            }
            r.push(cur);
            cur = Vec::new();
            if limit.is_some() {
                left = left - 1;
            }
            proof {
                assert(items@.subrange(i as int + 1, i as int + 1) =~= cur@);
            }
        } else {
            proof {
                assert(items@.subrange(start, i as int + 1) =~= cur@.push(item));
                if room == 1 {
                    assert(pieces_from(items@, sep, i as int, start, 1) == pieces_from(
                        items@,
                        sep,
                        i as int + 1,
                        start,
                        1,
                    ));
                }
            }
            cur.push(item);
        }
        i += 1;
    }
    proof {
        assert(r@.push(cur).map_values(|p: Vec<(bool, char)>| p@) =~= done.push(cur@));
        assert(done.push(cur@) =~= done + seq![cur@]);
    }
    r.push(cur);
    r
}

/// Cuts the text `s` at every `sep` that is not escaped by `esc`, into at
/// most `limit` pieces where a limit is given, and turns each piece into
/// text again.
pub fn cut_unescaped(s: &Vec<char>, limit: Option<usize>, sep: char, esc: char) -> (r: Vec<
    Vec<char>,
>)
    ensures
        r@.map_values(|p: Vec<char>| p@) == splitn_not_escaped(
            s@,
            piece_bound(limit, auto_escape(s@, esc).len()),
            sep,
            esc,
        ),
{
    let items = escape_pairs(s, esc);
    let pieces = cut_pairs(&items, sep, limit);
    let mut r: Vec<Vec<char>> = Vec::new();
    let mut i: usize = 0;
    let ghost n = piece_bound(limit, items@.len());
    let ghost raw = splitn_items(items@, sep, n);
    let ghost goal = splitn_not_escaped(s@, n, sep, esc);
    while i < pieces.len()
        invariant
            i <= pieces.len(),
            pieces@.map_values(|p: Vec<(bool, char)>| p@) == raw,
            raw == splitn_items(auto_escape(s@, esc), sep, n),
            goal == splitn_not_escaped(s@, n, sep, esc),
            r@.map_values(|p: Vec<char>| p@) == goal.take(i as int),
        decreases pieces.len() - i,
    {
        let piece = unescape_pairs(&pieces[i], Restore::AllExcept(sep), esc);
        proof {
            assert(pieces@.map_values(|p: Vec<(bool, char)>| p@).len() == pieces@.len());
            assert(pieces@.map_values(|p: Vec<(bool, char)>| p@)[i as int] == pieces@[i as int]@);
            assert(raw[i as int] == pieces@[i as int]@);
            assert(goal.len() == raw.len());
            assert(goal[i as int] == unescape(raw[i as int], Restore::AllExcept(sep), esc));
            assert(goal.take(i as int + 1) =~= goal.take(i as int).push(piece@));
            assert(r@.push(piece).map_values(|p: Vec<char>| p@) =~= r@.map_values(
                |p: Vec<char>| p@,
            ).push(piece@));
        }
        r.push(piece);
        i += 1;
    }
    proof {
        assert(pieces@.map_values(|p: Vec<(bool, char)>| p@).len() == pieces@.len());
        assert(goal.take(goal.len() as int) =~= goal);
    }
    r
}

/// Cuts the text `s` at every `sep` that is not escaped by `esc` into at
/// most `n` pieces: see [`splitn_not_escaped`].
pub fn splitn_unescaped(s: &Vec<char>, n: usize, sep: char, esc: char) -> (r: Vec<Vec<char>>)
    ensures
        r@.map_values(|p: Vec<char>| p@) == splitn_not_escaped(s@, n as nat, sep, esc),
{
    cut_unescaped(s, Some(n), sep, esc)
}

/// Cuts the text `s` at every `sep` that is not escaped by `esc`: see
/// [`split_not_escaped`].
pub fn split_unescaped(s: &Vec<char>, sep: char, esc: char) -> (r: Vec<Vec<char>>)
    ensures
        r@.map_values(|p: Vec<char>| p@) == split_not_escaped(s@, sep, esc),
{
    proof {
        let items = auto_escape(s@, esc);
        lemma_auto_escape_round_trip(s@, esc);
        lemma_split_cap(items, sep, 0, 0, items.len() + 1, s@.len() + 1);
    }
    cut_unescaped(s, None, sep, esc)
}

/// A limit on the number of pieces that is not reached makes no difference.
pub proof fn lemma_split_cap(
    items: Seq<(bool, char)>,
    sep: char,
    from: int,
    start: int,
    a: nat,
    b: nat,
)
    requires
        0 <= start <= from <= items.len(),
        a > items.len() - from,
        b > items.len() - from,
    ensures
        pieces_from(items, sep, from, start, a) == pieces_from(items, sep, from, start, b),
    decreases items.len() - from,
{
    if from >= items.len() {
    } else if items[from] == (false, sep) {
        lemma_split_cap(items, sep, from + 1, from + 1, (a - 1) as nat, (b - 1) as nat);
    } else {
        lemma_split_cap(items, sep, from + 1, start, a, b);
    }
}

/// Whether `item` is the unescaped character `c`.
pub open spec fn is_unescaped(item: (bool, char), c: char) -> bool {
    !item.0 && item.1 == c
}

/// Where the group that starts at position `from` of `items`, `lvl` levels
/// deep, ends: the position of the first unescaped `dec` that has no
/// unescaped `inc` before it to match, or the length of `items` if there is
/// none. Without an `inc` nothing opens a level.
pub open spec fn group_end(
    items: Seq<(bool, char)>,
    from: int,
    lvl: nat,
    inc: Option<char>,
    dec: char,
) -> int
    decreases items.len() - from,
{
    if from >= items.len() {
        items.len() as int
    } else if inc is Some && is_unescaped(items[from], inc->0) {
        group_end(items, from + 1, lvl + 1, inc, dec)
    } else if is_unescaped(items[from], dec) {
        if lvl == 0 {
            from
        } else {
            group_end(items, from + 1, (lvl - 1) as nat, inc, dec)
        }
    } else {
        group_end(items, from + 1, lvl, inc, dec)
    }
}

/// A group ends at or after the position it is looked for from.
pub proof fn lemma_group_end_bounds(
    items: Seq<(bool, char)>,
    from: int,
    lvl: nat,
    inc: Option<char>,
    dec: char,
)
    requires
        0 <= from <= items.len(),
    ensures
        from <= group_end(items, from, lvl, inc, dec) <= items.len(),
    decreases items.len() - from,
{
    if from < items.len() {
        if inc is Some && is_unescaped(items[from], inc->0) {
            lemma_group_end_bounds(items, from + 1, lvl + 1, inc, dec);
        } else if is_unescaped(items[from], dec) {
            if lvl > 0 {
                lemma_group_end_bounds(items, from + 1, (lvl - 1) as nat, inc, dec);
            }
        } else {
            lemma_group_end_bounds(items, from + 1, lvl, inc, dec);
        }
    }
}

/// A reader that hands out the pairs of one nested group and counts levels
/// while it does: an unescaped `inc` opens a level, an unescaped `dec`
/// closes one. The `dec` that would close a level that was never opened
/// ends the group; it is handed out only if `emit_final` is set, and after
/// it nothing is.
pub struct TakeWhileLevelGe0<'a> {
    /// The pairs that are read.
    pub items: &'a Vec<(bool, char)>,
    /// The position of the next pair to read.
    pub pos: usize,
    /// How many levels are open; `None` once the group has ended.
    pub lvl: Option<usize>,
    /// The character that opens a level, if any does.
    pub inc: Option<char>,
    /// The character that closes a level.
    pub dec: char,
    /// Whether the pair that ends the group is handed out too.
    pub emit_final: bool,
}

impl<'a> TakeWhileLevelGe0<'a> {
    /// Whether the reader is in a state that reading can lead to.
    pub open spec fn wf(&self) -> bool {
        &&& self.pos <= self.items@.len()
        &&& self.lvl is Some ==> self.lvl->0 <= self.pos
    }

    /// A reader of the group that starts at position `from` of `items`.
    pub fn new(
        items: &'a Vec<(bool, char)>,
        from: usize,
        inc: Option<char>,
        dec: char,
        emit_final: bool,
    ) -> (r: Self)
        requires
            from <= items@.len(),
        ensures
            r.wf(),
            r.items == items,
            r.pos == from,
            r.lvl == Some(0usize),
            r.inc == inc,
            r.dec == dec,
            r.emit_final == emit_final,
    {
        TakeWhileLevelGe0 { items, pos: from, lvl: Some(0), inc, dec, emit_final }
    }

    /// Hands out the next pair of the group, if there is one.
    pub fn next(&mut self) -> (r: Option<(bool, char)>)
        requires
            old(self).wf(),
        ensures
            final(self).wf(),
            final(self).items == old(self).items,
            final(self).inc == old(self).inc,
            final(self).dec == old(self).dec,
            final(self).emit_final == old(self).emit_final,
            old(self).lvl is None || old(self).pos >= old(self).items@.len() ==> r is None
                && final(self).pos == old(self).pos && final(self).lvl == old(self).lvl,
            old(self).lvl is Some && old(self).pos < old(self).items@.len() ==> {
                let item = old(self).items@[old(self).pos as int];
                let lvl = old(self).lvl->0;
                &&& final(self).pos == old(self).pos + 1
                &&& if old(self).inc is Some && is_unescaped(item, old(self).inc->0) {
                    r == Some(item) && final(self).lvl == Some((lvl + 1) as usize)
                } else if is_unescaped(item, old(self).dec) {
                    if lvl == 0 {
                        final(self).lvl is None && r == if old(self).emit_final {
                            Some(item)
                        } else {
                            None
                        }
                    } else {
                        r == Some(item) && final(self).lvl == Some((lvl - 1) as usize)
                    }
                } else {
                    r == Some(item) && final(self).lvl == old(self).lvl
                }
            },
    {
        let lvl = match self.lvl {
            Some(l) => l,
            None => {
                return None;
            },
        };
        if self.pos >= self.items.len() {
            return None;
        }
        let item = self.items[self.pos];
        self.pos = self.pos + 1;
        let opens = match self.inc {
            Some(c) => !item.0 && item.1 == c,
            None => false,
        };
        if opens {
            self.lvl = Some(lvl + 1);
        } else if !item.0 && item.1 == self.dec {
            if lvl == 0 {
                self.lvl = None;
                if !self.emit_final {
                    return None;
                }
            } else {
                self.lvl = Some(lvl - 1);
            }
        }
        Some(item)
    }
}

/// Reads one nested group from position `from` of `items`: gives the pairs
/// of the group and the position at which reading goes on after it, which
/// is behind the pair that ended the group.
pub fn take_while_lvl_ge0(
    items: &Vec<(bool, char)>,
    from: usize,
    inc: Option<char>,
    dec: char,
    emit_final: bool,
) -> (r: (Vec<(bool, char)>, usize))
    requires
        from <= items@.len(),
    ensures
        ({
            let end = group_end(items@, from as int, 0, inc, dec);
            let closed = end < items@.len();
            &&& r.0@ == items@.subrange(
                from as int,
                if closed && emit_final {
                    end + 1
                } else {
                    end
                },
            )
            &&& r.1 == if closed {
                end + 1
            } else {
                end
            }
        }),
{
    let mut reader = TakeWhileLevelGe0::new(items, from, inc, dec, emit_final);
    let mut group: Vec<(bool, char)> = Vec::new();
    let ghost end = group_end(items@, from as int, 0, inc, dec);
    proof {
        lemma_group_end_bounds(items@, from as int, 0, inc, dec);
        assert(items@.subrange(from as int, from as int) =~= group@);
    }
    loop
        invariant
            reader.wf(),
            reader.items == items,
            reader.inc == inc,
            reader.dec == dec,
            reader.emit_final == emit_final,
            from <= reader.pos <= items@.len(),
            from <= end <= items@.len(),
            end == group_end(items@, from as int, 0, inc, dec),
            reader.lvl is Some ==> group_end(
                items@,
                reader.pos as int,
                reader.lvl->0 as nat,
                inc,
                dec,
            ) == end && group@ == items@.subrange(from as int, reader.pos as int),
            reader.lvl is None ==> end < items@.len() && reader.pos == end + 1 && group@
                == items@.subrange(
                from as int,
                if emit_final {
                    end + 1
                } else {
                    end
                },
            ),
        decreases items@.len() - reader.pos + if reader.lvl is Some { 1int } else { 0int },
    {
        let ghost before = reader;
        match reader.next() {
            Some(item) => {
                proof {
                    assert(items@.subrange(from as int, before.pos as int + 1) =~= group@.push(
                        item,
                    ));
                }
                group.push(item);
                if reader.lvl.is_none() {
                    return (group, reader.pos);
                }
            },
            None => {
                return (group, reader.pos);
            },
        }
    }
}

} // verus!
