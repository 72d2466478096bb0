//! Ordering texts and sorting by a key, keeping equal keys in the order in
//! which they came.

use vstd::prelude::*;

verus! {

/// Whether `a` comes strictly before `b` in the order of texts: character
/// by character, a text that ends first before the longer one.
pub open spec fn lex_lt(a: Seq<char>, b: Seq<char>) -> bool
    decreases a.len(),
{
    if b.len() == 0 {
        false
    } else if a.len() == 0 {
        true
    } else if a[0] != b[0] {
        a[0] < b[0]
    } else {
        lex_lt(a.skip(1), b.skip(1))
    }
}

/// Whether an entry with the key `key` goes before an entry with the key
/// `other` that came earlier: only where its key is strictly before the
/// other in the order asked for.
pub open spec fn goes_before(key: Seq<char>, other: Seq<char>, descending: bool) -> bool {
    if descending {
        lex_lt(other, key)
    } else {
        lex_lt(key, other)
    }
}

/// The position at which an entry with the key `key` is put into `sorted`,
/// looked for from position `i` on: before the first entry that it goes
/// before, or at the end.
pub open spec fn insert_pos(
    sorted: Seq<(Seq<char>, Seq<char>)>,
    key: Seq<char>,
    descending: bool,
    i: int,
) -> int
    decreases sorted.len() - i,
{
    if i >= sorted.len() {
        sorted.len() as int
    } else if goes_before(key, sorted[i].0, descending) {
        i
    } else {
        insert_pos(sorted, key, descending, i + 1)
    }
}

/// The entries `pairs`, each a key and a text, sorted by key: ascending, or
/// descending if `descending` is set. Entries with equal keys stay in the
/// order in which they came.
pub open spec fn stable_sort(pairs: Seq<(Seq<char>, Seq<char>)>, descending: bool) -> Seq<
    (Seq<char>, Seq<char>),
>
    decreases pairs.len(),
{
    if pairs.len() == 0 {
        Seq::empty()
    } else {
        let sorted = stable_sort(pairs.drop_last(), descending);
        sorted.insert(insert_pos(sorted, pairs.last().0, descending, 0), pairs.last())
    }
}

/// The entries made of the keys `keys` and the texts `items`, pair by pair.
pub open spec fn zip(keys: Seq<Seq<char>>, items: Seq<Seq<char>>) -> Seq<(Seq<char>, Seq<char>)> {
    Seq::new(
        if keys.len() <= items.len() {
            keys.len()
        } else {
            items.len()
        },
        |i: int| (keys[i], items[i]),
    )
}

/// The texts `items` sorted by their keys `keys`: see [`stable_sort`].
pub open spec fn sorted_by_key(keys: Seq<Seq<char>>, items: Seq<Seq<char>>, descending: bool) -> Seq<
    Seq<char>,
> {
    stable_sort(zip(keys, items), descending).map_values(|p: (Seq<char>, Seq<char>)| p.1)
}

/// The position of an entry to put in lies within the sorted entries, or
/// right after them.
pub proof fn lemma_insert_pos_bounds(
    sorted: Seq<(Seq<char>, Seq<char>)>,
    key: Seq<char>,
    descending: bool,
    i: int,
)
    requires
        0 <= i <= sorted.len(),
    ensures
        i <= insert_pos(sorted, key, descending, i) <= sorted.len(),
    decreases sorted.len() - i,
{
    if i < sorted.len() && !goes_before(key, sorted[i].0, descending) {
        lemma_insert_pos_bounds(sorted, key, descending, i + 1);
    }
}

/// Sorting keeps the number of entries.
pub proof fn lemma_stable_sort_len(pairs: Seq<(Seq<char>, Seq<char>)>, descending: bool)
    ensures
        stable_sort(pairs, descending).len() == pairs.len(),
    decreases pairs.len(),
{
    if pairs.len() > 0 {
        lemma_stable_sort_len(pairs.drop_last(), descending);
        let sorted = stable_sort(pairs.drop_last(), descending);
        lemma_insert_pos_bounds(sorted, pairs.last().0, descending, 0);
    }
}

/// Tests if `a` comes strictly before `b` in the order of texts.
pub fn text_lt(a: &Vec<char>, b: &Vec<char>) -> (r: bool)
    ensures
        r == lex_lt(a@, b@),
{
    let mut i: usize = 0;
    proof {
        assert(a@.skip(0) =~= a@);
        assert(b@.skip(0) =~= b@);
    }
    loop
        invariant
            i <= a@.len(),
            i <= b@.len(),
            lex_lt(a@.skip(i as int), b@.skip(i as int)) == lex_lt(a@, b@),
        decreases a@.len() - i,
    {
        if i >= b.len() {
            return false;
        }
        if i >= a.len() {
            return true;
        }
        proof {
            assert(a@.skip(i as int)[0] == a@[i as int]);
            assert(b@.skip(i as int)[0] == b@[i as int]);
            assert(a@.skip(i as int).skip(1) =~= a@.skip(i as int + 1));
            assert(b@.skip(i as int).skip(1) =~= b@.skip(i as int + 1));
        }
        if a[i] != b[i] {
            return a[i] < b[i];
        }
        i += 1;
    }
}

/// The keys and texts of a list of entries.
pub open spec fn pair_views(v: Seq<(Vec<char>, Vec<char>)>) -> Seq<(Seq<char>, Seq<char>)> {
    v.map_values(|p: (Vec<char>, Vec<char>)| (p.0@, p.1@))
}

/// Sorts the entries `pairs`, each a key and a text, by key: see
/// [`stable_sort`].
pub fn sort_pairs(pairs: Vec<(Vec<char>, Vec<char>)>, descending: bool) -> (r: Vec<
    (Vec<char>, Vec<char>),
>)
    ensures
        pair_views(r@) == stable_sort(pair_views(pairs@), descending),
{
    let mut r: Vec<(Vec<char>, Vec<char>)> = Vec::new();
    let mut pairs = pairs;
    let ghost all = pair_views(pairs@);
    let ghost total = pairs@.len();
    let count = pairs.len();
    // Entries are taken from the end, so the list is turned round first.
    let mut rest: Vec<(Vec<char>, Vec<char>)> = Vec::new();
    while pairs.len() > 0
        invariant
            pairs@.len() + rest@.len() == total,
            all.len() == total,
            pair_views(pairs@) == all.take(pairs@.len() as int),
            forall|j: int|
                0 <= j < rest@.len() ==> (#[trigger] rest@[j].0@, rest@[j].1@) == all[total - 1
                    - j],
        decreases pairs@.len(),
    {
        let ghost before = pairs@;
        let last = pairs.pop().unwrap();
        proof {
            assert(pair_views(before)[before.len() - 1] == (last.0@, last.1@));
            assert(pair_views(pairs@) =~= all.take(pairs@.len() as int));
        }
        rest.push(last);
    }
    let mut k: usize = 0;
    proof {
        assert(pair_views(r@) =~= stable_sort(all.take(0), descending));
    }
    while rest.len() > 0
        invariant
            k + rest@.len() == total,
            all.len() == total,
            total == count,
            forall|j: int|
                0 <= j < rest@.len() ==> (#[trigger] rest@[j].0@, rest@[j].1@) == all[total - 1
                    - j],
            pair_views(r@) == stable_sort(all.take(k as int), descending),
        decreases rest@.len(),
    {
        let ghost before = rest@;
        let entry = rest.pop().unwrap();
        proof {
            assert((before[before.len() - 1].0@, before[before.len() - 1].1@) == all[k as int]);
            assert(all.take(k as int + 1).drop_last() =~= all.take(k as int));
            assert(all.take(k as int + 1).last() == all[k as int]);
            assert forall|j: int| 0 <= j < rest@.len() implies (
                #[trigger] rest@[j].0@,
                rest@[j].1@,
            ) == all[total - 1 - j] by {
                assert(rest@[j] == before[j]);
            }
        }
        let ghost sorted = pair_views(r@);
        let mut at: usize = 0;
        proof {
            lemma_insert_pos_bounds(sorted, entry.0@, descending, 0);
        }
        let mut found = false;
        while at < r.len() && !found
            invariant
                at <= r@.len(),
                sorted == pair_views(r@),
                found ==> at < r@.len() && goes_before(entry.0@, sorted[at as int].0, descending),
                insert_pos(sorted, entry.0@, descending, at as int) == insert_pos(
                    sorted,
                    entry.0@,
                    descending,
                    0,
                ),
            decreases r@.len() - at + if found { 0int } else { 1int },
        {
            proof {
                assert(sorted[at as int] == (r@[at as int].0@, r@[at as int].1@));
            }
            let before_it = if descending {
                text_lt(&r[at].0, &entry.0)
            } else {
                text_lt(&entry.0, &r[at].0)
            };
            if before_it {
                found = true;
            } else {
                at += 1;
            }
        }
        proof {
            assert(at == insert_pos(sorted, entry.0@, descending, 0));
            assert(pair_views(r@.insert(at as int, entry)) =~= sorted.insert(
                at as int,
                (entry.0@, entry.1@),
            ));
        }
        r.insert(at, entry);
        k += 1;
    }
    proof {
        assert(all.take(total as int) =~= all);
    }
    r
}

/// No text comes before itself.
pub proof fn lemma_lex_irreflexive(a: Seq<char>)
    ensures
        !lex_lt(a, a),
    decreases a.len(),
{
    if a.len() > 0 {
        lemma_lex_irreflexive(a.skip(1));
    }
}

/// Of two texts that differ, one comes before the other.
pub proof fn lemma_lex_total(a: Seq<char>, b: Seq<char>)
    ensures
        lex_lt(a, b) || lex_lt(b, a) || a == b,
    decreases a.len(),
{
    if a.len() == 0 || b.len() == 0 {
        if a.len() == 0 && b.len() == 0 {
            assert(a =~= b);
        }
    } else if a[0] == b[0] {
        lemma_lex_total(a.skip(1), b.skip(1));
        if a.skip(1) == b.skip(1) {
            assert(a =~= seq![a[0]] + a.skip(1));
            assert(b =~= seq![b[0]] + b.skip(1));
        }
    }
}

/// The order of texts is transitive.
pub proof fn lemma_lex_transitive(a: Seq<char>, b: Seq<char>, c: Seq<char>)
    requires
        lex_lt(a, b),
        lex_lt(b, c),
    ensures
        lex_lt(a, c),
    decreases a.len(),
{
    if a.len() > 0 && a[0] == b[0] && b[0] == c[0] {
        lemma_lex_transitive(a.skip(1), b.skip(1), c.skip(1));
    }
}

/// If `x` goes before `p`, and `q` does not go before `p`, then `x` goes
/// before `q`.
pub proof fn lemma_goes_before_later(x: Seq<char>, p: Seq<char>, q: Seq<char>, descending: bool)
    requires
        goes_before(x, p, descending),
        !goes_before(q, p, descending),
    ensures
        goes_before(x, q, descending),
        x != q,
{
    lemma_lex_total(p, q);
    lemma_lex_irreflexive(x);
    if descending {
        if p != q {
            lemma_lex_transitive(q, p, x);
        }
    } else {
        if p != q {
            lemma_lex_transitive(x, p, q);
        }
    }
}

/// Whether the entries `s` stand in order: none goes before an entry that
/// stands before it.
pub open spec fn is_sorted(s: Seq<(Seq<char>, Seq<char>)>, descending: bool) -> bool {
    forall|i: int, j: int|
        0 <= i < j < s.len() ==> !goes_before((#[trigger] s[j]).0, (#[trigger] s[i]).0, descending)
}

/// Where an entry is put in: behind every entry that it does not go
/// before, and right before one that it goes before.
pub proof fn lemma_insert_pos(
    sorted: Seq<(Seq<char>, Seq<char>)>,
    key: Seq<char>,
    descending: bool,
    from: int,
)
    requires
        0 <= from <= sorted.len(),
    ensures
        from <= insert_pos(sorted, key, descending, from) <= sorted.len(),
        forall|i: int|
            from <= i < insert_pos(sorted, key, descending, from) ==> !goes_before(
                key,
                (#[trigger] sorted[i]).0,
                descending,
            ),
        insert_pos(sorted, key, descending, from) < sorted.len() ==> goes_before(
            key,
            sorted[insert_pos(sorted, key, descending, from)].0,
            descending,
        ),
    decreases sorted.len() - from,
{
    if from < sorted.len() && !goes_before(key, sorted[from].0, descending) {
        lemma_insert_pos(sorted, key, descending, from + 1);
    }
}

/// An entry that is put into entries that stand in order goes before all
/// entries behind it, and the entries stand in order again.
pub proof fn lemma_insert_keeps_order(
    sorted: Seq<(Seq<char>, Seq<char>)>,
    x: (Seq<char>, Seq<char>),
    descending: bool,
)
    requires
        is_sorted(sorted, descending),
    ensures
        is_sorted(sorted.insert(insert_pos(sorted, x.0, descending, 0), x), descending),
        forall|j: int|
            insert_pos(sorted, x.0, descending, 0) <= j < sorted.len() ==> (
            #[trigger] sorted[j]).0 != x.0,
{
    let pos = insert_pos(sorted, x.0, descending, 0);
    lemma_insert_pos(sorted, x.0, descending, 0);
    let out = sorted.insert(pos, x);
    assert forall|j: int| pos <= j < sorted.len() implies goes_before(
        x.0,
        (#[trigger] sorted[j]).0,
        descending,
    ) && sorted[j].0 != x.0 by {
        if j > pos {
            assert(!goes_before(sorted[j].0, sorted[pos].0, descending));
        } else {
            lemma_lex_irreflexive(sorted[pos].0);
        }
        lemma_goes_before_later(x.0, sorted[pos].0, sorted[j].0, descending);
    }
    assert forall|i: int, j: int| 0 <= i < j < out.len() implies !goes_before(
        (#[trigger] out[j]).0,
        (#[trigger] out[i]).0,
        descending,
    ) by {
        if j == pos {
            assert(out[i] == sorted[i]);
        } else if i == pos {
            assert(out[j] == sorted[j - 1]);
            assert(goes_before(x.0, sorted[j - 1].0, descending));
            lemma_lex_irreflexive(x.0);
            if goes_before(sorted[j - 1].0, x.0, descending) {
                if descending {
                    lemma_lex_transitive(x.0, sorted[j - 1].0, x.0);
                } else {
                    lemma_lex_transitive(x.0, sorted[j - 1].0, x.0);
                }
            }
        } else {
            let oi = if i < pos {
                i
            } else {
                i - 1
            };
            let oj = if j < pos {
                j
            } else {
                j - 1
            };
            assert(out[i] == sorted[oi]);
            assert(out[j] == sorted[oj]);
        }
    }
}

/// Sorting puts the entries in order: in the result no entry goes before
/// an entry that stands before it.
pub proof fn law_sort_orders(pairs: Seq<(Seq<char>, Seq<char>)>, descending: bool)
    ensures
        is_sorted(stable_sort(pairs, descending), descending),
    decreases pairs.len(),
{
    if pairs.len() > 0 {
        law_sort_orders(pairs.drop_last(), descending);
        lemma_insert_keeps_order(
            stable_sort(pairs.drop_last(), descending),
            pairs.last(),
            descending,
        );
    }
}

/// Sorting neither loses nor adds an entry: the result holds every entry as
/// often as the entries that were sorted.
pub proof fn law_sort_permutes(pairs: Seq<(Seq<char>, Seq<char>)>, descending: bool)
    ensures
        stable_sort(pairs, descending).to_multiset() == pairs.to_multiset(),
    decreases pairs.len(),
{
    if pairs.len() > 0 {
        let before = pairs.drop_last();
        let sorted = stable_sort(before, descending);
        law_sort_permutes(before, descending);
        lemma_insert_pos(sorted, pairs.last().0, descending, 0);
        vstd::seq_lib::to_multiset_insert(
            sorted,
            insert_pos(sorted, pairs.last().0, descending, 0),
            pairs.last(),
        );
        assert(pairs =~= before.push(pairs.last()));
        vstd::seq_lib::to_multiset_build(before, pairs.last());
    } else {
        assert(stable_sort(pairs, descending) =~= pairs);
    }
}

/// Sorting is stable: the entries with one and the same key stand in the
/// result in the order in which they came.
pub proof fn law_sort_is_stable(
    pairs: Seq<(Seq<char>, Seq<char>)>,
    descending: bool,
    key: Seq<char>,
)
    ensures
        stable_sort(pairs, descending).filter(|p: (Seq<char>, Seq<char>)| p.0 == key)
            == pairs.filter(|p: (Seq<char>, Seq<char>)| p.0 == key),
    decreases pairs.len(),
{
    let has_key = |p: (Seq<char>, Seq<char>)| p.0 == key;
    if pairs.len() > 0 {
        let before = pairs.drop_last();
        let x = pairs.last();
        let sorted = stable_sort(before, descending);
        let pos = insert_pos(sorted, x.0, descending, 0);
        law_sort_is_stable(before, descending, key);
        law_sort_orders(before, descending);
        lemma_insert_pos(sorted, x.0, descending, 0);
        lemma_insert_keeps_order(sorted, x, descending);
        let head = sorted.take(pos);
        let tail = sorted.skip(pos);
        assert(sorted =~= head + tail);
        assert(sorted.insert(pos, x) =~= head.push(x) + tail);
        Seq::filter_distributes_over_add(head, tail, has_key);
        Seq::filter_distributes_over_add(head.push(x), tail, has_key);
        head.lemma_filter_push(x, has_key);
        assert(pairs =~= before.push(x));
        before.lemma_filter_push(x, has_key);
        if has_key(x) {
            assert forall|i: int| 0 <= i < tail.len() implies !has_key(#[trigger] tail[i]) by {
                assert(tail[i] == sorted[pos + i]);
            }
            tail.lemma_all_neg_filter_empty(has_key);
            assert(head.filter(has_key).push(x) + tail.filter(has_key) =~= (head.filter(has_key)
                + tail.filter(has_key)).push(x));
        }
    } else {
        assert(stable_sort(pairs, descending) =~= pairs);
    }
}

} // verus!
