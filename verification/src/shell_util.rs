//! Tools for commands that deal with a shell or with file names: cutting a
//! command line into words, and matching names against patterns.

use vstd::prelude::*;
use crate::escape::{
    auto_escape, escape_pairs, group_end, lemma_group_end_bounds, take_while_lvl_ge0, unescape,
    unescape_pairs, Restore,
};
use crate::parser::ESCAPE;
use crate::text::{chars_of, push_all, same_text, string_of};

verus! {

/// The words that the pairs `items` from position `i` on fall into, where
/// `done` are the words read so far and `cur` is the word being read.
///
/// A space ends a word that is not empty. An unescaped `"` starts a quoted
/// part, which reaches to the next unescaped `"`: its characters belong to
/// the word, spaces too, and any backslash in it stays but one before a
/// `"`. Any other character belongs to the word; a backslash before it is
/// dropped.
pub open spec fn words_from(
    items: Seq<(bool, char)>,
    i: int,
    done: Seq<Seq<char>>,
    cur: Seq<char>,
) -> Seq<Seq<char>>
    decreases items.len() - i,
{
    if i < 0 || i >= items.len() {
        done.push(cur)
    } else if items[i] == (false, '"') {
        let end = group_end(items, i + 1, 0, None, '"');
        let next = if i < end < items.len() {
            end + 1
        } else {
            items.len() as int
        };
        let quoted = unescape(
            items.subrange(i + 1, if i < end <= items.len() {
                end
            } else {
                i + 1
            }),
            Restore::AllExcept('"'),
            ESCAPE,
        );
        words_from(items, next, done, cur + quoted)
    } else if items[i].1 == ' ' {
        if cur.len() > 0 {
            words_from(items, i + 1, done.push(cur), Seq::empty())
        } else {
            words_from(items, i + 1, done, cur)
        }
    } else {
        words_from(items, i + 1, done, cur.push(items[i].1))
    }
}

/// The words of the command line `s`: see [`words_from`]. There is always
/// one word, which may be empty.
pub open spec fn shell_words(s: Seq<char>) -> Seq<Seq<char>> {
    words_from(auto_escape(s, ESCAPE), 0, Seq::empty(), Seq::empty())
}

/// A command line always has a first word.
pub proof fn lemma_words_from_len(
    items: Seq<(bool, char)>,
    i: int,
    done: Seq<Seq<char>>,
    cur: Seq<char>,
)
    ensures
        words_from(items, i, done, cur).len() >= done.len() + 1,
    decreases items.len() - i,
{
    if i < 0 || i >= items.len() {
    } else if items[i] == (false, '"') {
        let end = group_end(items, i + 1, 0, None, '"');
        let next = if i < end < items.len() {
            end + 1
        } else {
            items.len() as int
        };
        let quoted = unescape(
            items.subrange(i + 1, if i < end <= items.len() {
                end
            } else {
                i + 1
            }),
            Restore::AllExcept('"'),
            ESCAPE,
        );
        lemma_words_from_len(items, next, done, cur + quoted);
    } else if items[i].1 == ' ' {
        if cur.len() > 0 {
            lemma_words_from_len(items, i + 1, done.push(cur), Seq::empty());
        } else {
            lemma_words_from_len(items, i + 1, done, cur);
        }
    } else {
        lemma_words_from_len(items, i + 1, done, cur.push(items[i].1));
    }
}

/// Cuts a command line into words, as a shell does: at spaces, but not at
/// spaces between double quotes: see [`shell_words`].
pub fn split_args(s: &str) -> (r: Vec<String>)
    ensures
        crate::escape::texts(r@) == shell_words(s@),
        r@.len() >= 1,
{
    let src = chars_of(s);
    let items = escape_pairs(&src, ESCAPE);
    let n = items.len();
    let mut done: Vec<String> = Vec::new();
    let mut cur: Vec<char> = Vec::new();
    let mut i: usize = 0;
    proof {
        assert(crate::escape::texts(done@) =~= Seq::<Seq<char>>::empty());
        lemma_words_from_len(items@, 0, Seq::empty(), Seq::empty());
    }
    while i < n
        invariant
            i <= n,
            n == items@.len(),
            src@ == s@,
            items@ == auto_escape(s@, ESCAPE),
            words_from(items@, i as int, crate::escape::texts(done@), cur@) == shell_words(s@),
        decreases n - i,
    {
        let item = items[i];
        if !item.0 && item.1 == '"' {
            proof {
                lemma_group_end_bounds(items@, i as int + 1, 0, None, '"');
            }
            let (group, next) = take_while_lvl_ge0(&items, i + 1, None, '"', false);
            let quoted = unescape_pairs(&group, Restore::AllExcept('"'), ESCAPE);
            push_all(&mut cur, &quoted);
            i = next;
        } else if item.1 == ' ' {
            if cur.len() > 0 {
                let word = string_of(&cur);
                proof {
                    assert(crate::escape::texts(done@.push(word)) =~= crate::escape::texts(
                        done@,
                    ).push(cur@));
                }
                done.push(word);
                cur = Vec::new();
            }
            i += 1;
        } else {
            cur.push(item.1);
            i += 1;
        }
    }
    let word = string_of(&cur);
    proof {
        assert(crate::escape::texts(done@.push(word)) =~= crate::escape::texts(done@).push(cur@));
    }
    done.push(word);
    done
}

/// The position of the first `c` in `s` at or after position `i`, or the
/// length of `s` if there is none.
pub open spec fn index_of(s: Seq<char>, c: char, i: int) -> int
    decreases s.len() - i,
{
    if i < 0 || i >= s.len() {
        s.len() as int
    } else if s[i] == c {
        i
    } else {
        index_of(s, c, i + 1)
    }
}

/// Whether the text `s` ends with the text `tail`.
pub open spec fn ends_with(s: Seq<char>, tail: Seq<char>) -> bool {
    tail.len() <= s.len() && s.skip(s.len() - tail.len()) == tail
}

/// Whether the name `s` matches the pattern `pat`.
///
/// A pattern that starts with `*` matches every name that ends with the
/// rest of the pattern: the `*` stands for any characters, or none, at the
/// start of the name. Any other pattern matches the name that is equal to
/// it, and no other. A `*` behind the start of a pattern stands for itself.
pub open spec fn matches(s: Seq<char>, pat: Seq<char>) -> bool {
    if pat.len() > 0 && pat[0] == '*' {
        ends_with(s, pat.skip(1))
    } else {
        s == pat
    }
}

/// Tests if the name `s` matches the pattern `pat`: see [`matches`].
#[verifier::loop_isolation(false)]
pub fn matches_pattern(s: &str, pat: &str) -> (r: bool)
    ensures
        r == matches(s@, pat@),
{
    let name = chars_of(s);
    let pattern = chars_of(pat);
    if pattern.len() > 0 && pattern[0] == '*' {
        let tail = pattern.len() - 1;
        if tail > name.len() {
            return false;
        }
        let from = name.len() - tail;
        let ghost end = name@.skip(from as int);
        let ghost rest = pattern@.skip(1);
        let mut i: usize = 0;
        while i < tail
            invariant
                i <= tail,
                tail == pattern@.len() - 1,
                from + tail == name@.len(),
                end == name@.skip(from as int),
                rest == pattern@.skip(1),
                forall|j: int| 0 <= j < i ==> end[j] == rest[j],
            decreases tail - i,
        {
            if name[from + i] != pattern[1 + i] {
                proof {
                    assert(end[i as int] == name@[from + i]);
                    assert(rest[i as int] == pattern@[1 + i]);
                    assert(end != rest);
                }
                return false;
            }
            proof {
                assert(end[i as int] == name@[from + i]);
                assert(rest[i as int] == pattern@[1 + i]);
            }
            i += 1;
        }
        proof {
            assert(end =~= rest);
        }
        true
    } else {
        same_text(&name, &pattern)
    }
}

/// Splits a list into its first entry and the entries behind it. Gives
/// nothing for an empty list.
pub fn head_tail<T>(v: Vec<T>) -> (r: Option<(T, Vec<T>)>)
    ensures
        match r {
            Some((head, tail)) => v@.len() > 0 && head == v@[0] && tail@ == v@.skip(1),
            None => v@.len() == 0,
        },
{
    let mut tail = v;
    if tail.len() == 0 {
        None
    } else {
        let head = tail.remove(0);
        proof {
            assert(tail@ =~= v@.skip(1));
        }
        Some((head, tail))
    }
}

} // verus!
