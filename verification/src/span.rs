//! Regions of a text and positions in it.

use vstd::prelude::*;
use vstd::string::StringExecFns;
use crate::number::{decimal, decimal_of};
use crate::text::{
    byte_len, char_width, chars_of, lemma_byte_len_subrange, lemma_byte_len_take_increasing,
    slice_of, string_of,
};

verus! {

/// Whether `offset` is the byte offset of a character position of `s`: of
/// the start of a character, or of the end of the text.
pub open spec fn is_boundary(s: Seq<char>, offset: int) -> bool {
    exists|k: int| 0 <= k <= s.len() && #[trigger] byte_len(s.take(k)) == offset
}

/// The number of line feeds in `s`.
pub open spec fn newlines(s: Seq<char>) -> nat
    decreases s.len(),
{
    if s.len() == 0 {
        0
    } else {
        newlines(s.drop_last()) + if s.last() == '\n' {
            1nat
        } else {
            0nat
        }
    }
}

/// The character position at which the line that holds position `k` starts:
/// the position after the last line feed before `k`, or the start of `s`.
pub open spec fn line_start(s: Seq<char>, k: int) -> int
    decreases k,
{
    if k <= 0 {
        0
    } else if s[k - 1] == '\n' {
        k
    } else {
        line_start(s, k - 1)
    }
}

/// The number of bytes that the characters of `s` from position `i` on
/// take up to the end of the line that is `rows` lines further on, the
/// line feeds not counted.
pub open spec fn line_bytes(s: Seq<char>, i: int, rows: nat) -> nat
    decreases s.len() - i,
{
    if rows == 0 || i < 0 || i >= s.len() {
        0
    } else if s[i] == '\n' {
        line_bytes(s, i + 1, (rows - 1) as nat)
    } else {
        crate::text::utf8_width(s[i]) + line_bytes(s, i + 1, rows)
    }
}

/// Lines take no more bytes than the text that holds them.
pub proof fn lemma_line_bytes_bound(s: Seq<char>, i: int, rows: nat)
    requires
        0 <= i <= s.len(),
    ensures
        byte_len(s.take(i)) + line_bytes(s, i, rows) <= byte_len(s),
    decreases s.len() - i,
{
    lemma_byte_len_subrange(s, i, s.len() as int);
    if rows == 0 || i >= s.len() {
    } else {
        assert(s.take(i + 1).drop_last() =~= s.take(i));
        if s[i] == '\n' {
            lemma_line_bytes_bound(s, i + 1, (rows - 1) as nat);
        } else {
            lemma_line_bytes_bound(s, i + 1, rows);
        }
    }
}

/// A position in a text, split into row and column, both counted from zero.
#[derive(Debug, Copy, Clone, PartialEq, Eq, Structural)]
pub struct RowCol {
    /// The row (the line) number.
    pub row: usize,
    /// The column number, in characters.
    pub col: usize,
}

/// The row and column of the character position `k` of `s`.
pub open spec fn row_col_at(s: Seq<char>, k: int) -> RowCol {
    RowCol { row: newlines(s.take(k)) as usize, col: (k - line_start(s, k)) as usize }
}

/// The text of a position: row and column counted from one, with a colon
/// between them.
pub open spec fn row_col_text(p: RowCol) -> Seq<char> {
    decimal(p.row + 1) + seq![':'] + decimal(p.col + 1)
}

impl RowCol {
    /// The row and column of the character position `k` of `s`.
    pub fn at_position(s: &Vec<char>, k: usize) -> (r: Self)
        requires
            k <= s@.len(),
        ensures
            r == row_col_at(s@, k as int),
    {
        let mut row: usize = 0;
        let mut start: usize = 0;
        let mut j: usize = 0;
        while j < k
            invariant
                j <= k <= s@.len(),
                row == newlines(s@.take(j as int)),
                start == line_start(s@, j as int),
                start <= j,
                row <= j,
            decreases k - j,
        {
            proof {
                assert(s@.take(j as int + 1).drop_last() =~= s@.take(j as int));
            }
            if s[j] == '\n' {
                row = row + 1;
                start = j + 1;
            }
            j += 1;
        }
        RowCol { row, col: k - start }
    }

    /// Calculates the row and column of the byte offset `i` of `s`: the row
    /// is the number of line feeds before `i`, the column the number of
    /// characters between the start of that line and `i`.
    pub fn from_index(i: usize, s: &str) -> (r: Self)
        requires
            is_boundary(s@, i as int),
        ensures
            forall|k: int|
                0 <= k <= s@.len() && #[trigger] byte_len(s@.take(k)) == i ==> r == row_col_at(
                    s@,
                    k,
                ),
    {
        let v = chars_of(s);
        let k = position_of_offset(&v, i);
        let r = Self::at_position(&v, k);
        proof {
            assert forall|k2: int|
                0 <= k2 <= s@.len() && #[trigger] byte_len(s@.take(k2)) == i implies k2 == k by {
                if k2 < k {
                    lemma_byte_len_take_increasing(s@, k2, k as int);
                } else if k < k2 {
                    lemma_byte_len_take_increasing(s@, k as int, k2);
                }
            }
        }
        r
    }

    /// Calculates an index from a position and the text it is a position
    /// of: the number of bytes that the first `row` lines of `s` take, their
    /// line feeds not counted, plus the column.
    pub fn to_index(&self, s: &str) -> (r: usize)
        requires
            line_bytes(s@, 0, self.row as nat) + self.col <= usize::MAX,
        ensures
            r == line_bytes(s@, 0, self.row as nat) + self.col,
    {
        let v = chars_of(s);
        let mut rows: usize = self.row;
        let mut total: usize = 0;
        let mut i: usize = 0;
        proof {
            lemma_line_bytes_bound(v@, 0, self.row as nat);
        }
        while i < v.len() && rows > 0
            invariant
                i <= v.len(),
                v@ == s@,
                byte_len(v@) <= usize::MAX,
                total + line_bytes(v@, i as int, rows as nat) == line_bytes(
                    v@,
                    0,
                    self.row as nat,
                ),
                total <= byte_len(v@.take(i as int)),
            decreases v.len() - i,
        {
            proof {
                assert(v@.take(i as int + 1).drop_last() =~= v@.take(i as int));
                lemma_byte_len_subrange(v@, i as int + 1, v@.len() as int);
            }
            if v[i] == '\n' {
                rows = rows - 1;
            } else {
                total = total + char_width(v[i]);
            }
            i += 1;
        }
        total + self.col
    }

    /// The text of this position: row and column counted from one, with a
    /// colon between them.
    pub fn to_string(&self) -> (r: String)
        ensures
            r@ == row_col_text(*self),
    {
        let mut out = decimal_of(self.row as i128 + 1);
        out.push(':');
        let col = decimal_of(self.col as i128 + 1);
        crate::text::push_all(&mut out, &col);
        string_of(&out)
    }
}

/// The character position of `v` whose byte offset is `offset`.
pub fn position_of_offset(v: &Vec<char>, offset: usize) -> (k: usize)
    requires
        is_boundary(v@, offset as int),
    ensures
        k <= v@.len(),
        byte_len(v@.take(k as int)) == offset,
{
    let ghost goal = choose|g: int| 0 <= g <= v@.len() && #[trigger] byte_len(v@.take(g)) == offset;
    let n = v.len();
    let mut k: usize = 0;
    let mut at: usize = 0;
    while at < offset
        invariant
            n == v@.len(),
            k <= goal <= v@.len(),
            at == byte_len(v@.take(k as int)),
            byte_len(v@.take(goal)) == offset,
            at <= offset,
        decreases goal - k,
    {
        proof {
            if k == goal {
                assert(false);
            }
            assert(v@.take(k as int + 1).drop_last() =~= v@.take(k as int));
            lemma_byte_len_take_increasing(v@, k as int + 1, goal);
        }
        at = at + char_width(v[k]);
        k += 1;
    }
    k
}

/// A region of a text: `len` bytes from the byte offset `start` on.
#[derive(Debug, Copy, Clone, PartialEq, Eq, Structural)]
pub struct Span {
    /// The offset at which the region starts.
    pub start: usize,
    /// The length of the region.
    pub len: usize,
}

impl Default for Span {
    fn default() -> (r: Self)
        ensures
            r == (Span { start: 0, len: 0 }),
    {
        Span { start: 0, len: 0 }
    }
}

impl Span {
    /// The offset right after the region, as a number without bound.
    pub open spec fn end_pos(self) -> int {
        self.start + self.len
    }

    /// Whether the region lies within a text of `total` bytes.
    pub open spec fn within(self, total: int) -> bool {
        self.start + self.len <= total
    }

    /// The region moved forward by `by` bytes.
    pub open spec fn shifted(self, by: int) -> Span {
        Span { start: (self.start + by) as usize, len: self.len }
    }

    /// Creates a new `Span`.
    pub fn new(start: usize, len: usize) -> (r: Self)
        ensures
            r == (Span { start, len }),
    {
        Self { start, len }
    }

    /// Creates a new `Span` at position `0` with length `0`.
    pub fn empty() -> (r: Self)
        ensures
            r == (Span { start: 0, len: 0 }),
    {
        Self { start: 0, len: 0 }
    }

    /// Returns `start + len`: the position right after the end of the span.
    pub fn end(&self) -> (r: usize)
        requires
            self.end_pos() <= usize::MAX,
        ensures
            r == self.end_pos(),
    {
        self.start + self.len
    }

    /// The part of `s` that the span covers.
    pub fn index_str(&self, s: &str) -> (r: String)
        requires
            is_boundary(s@, self.start as int),
            is_boundary(s@, self.end_pos()),
        ensures
            forall|a: int, b: int|
                0 <= a <= s@.len() && 0 <= b <= s@.len() && #[trigger] byte_len(s@.take(a))
                    == self.start && #[trigger] byte_len(s@.take(b)) == self.end_pos() ==> r@
                    == s@.subrange(a, b),
    {
        let v = chars_of(s);
        proof {
            let e = choose|e: int|
                0 <= e <= s@.len() && #[trigger] byte_len(s@.take(e)) == self.end_pos();
            lemma_byte_len_subrange(s@, e, s@.len() as int);
        }
        let a = position_of_offset(&v, self.start);
        let b = position_of_offset(&v, self.start + self.len);
        proof {
            if b < a {
                lemma_byte_len_take_increasing(v@, b as int, a as int);
            }
            assert forall|a2: int, b2: int|
                0 <= a2 <= s@.len() && 0 <= b2 <= s@.len() && #[trigger] byte_len(s@.take(a2))
                    == self.start && #[trigger] byte_len(s@.take(b2))
                    == self.end_pos() implies a2 == a && b2 == b by {
                if a2 < a {
                    lemma_byte_len_take_increasing(s@, a2, a as int);
                } else if a < a2 {
                    lemma_byte_len_take_increasing(s@, a as int, a2);
                }
                if b2 < b {
                    lemma_byte_len_take_increasing(s@, b2, b as int);
                } else if b < b2 {
                    lemma_byte_len_take_increasing(s@, b as int, b2);
                }
            }
        }
        string_of(&slice_of(&v, a, b))
    }

    /// Splits the span into a pair of positions: the first one at the start
    /// and the second one at the end of the span.
    pub fn start_end_loc(&self, s: &str) -> (r: (RowCol, RowCol))
        requires
            is_boundary(s@, self.start as int),
            is_boundary(s@, self.end_pos()),
        ensures
            forall|a: int, b: int|
                0 <= a <= s@.len() && 0 <= b <= s@.len() && #[trigger] byte_len(s@.take(a))
                    == self.start && #[trigger] byte_len(s@.take(b)) == self.end_pos() ==> r == (
                    row_col_at(s@, a),
                    row_col_at(s@, b),
                ),
    {
        let chars = chars_of(s);
        proof {
            let e = choose|e: int|
                0 <= e <= s@.len() && #[trigger] byte_len(s@.take(e)) == self.end_pos();
            lemma_byte_len_subrange(s@, e, s@.len() as int);
        }
        let a = position_of_offset(&chars, self.start);
        let b = position_of_offset(&chars, self.start + self.len);
        proof {
            assert forall|a2: int, b2: int|
                0 <= a2 <= s@.len() && 0 <= b2 <= s@.len() && #[trigger] byte_len(s@.take(a2))
                    == self.start && #[trigger] byte_len(s@.take(b2))
                    == self.end_pos() implies a2 == a && b2 == b by {
                if a2 < a {
                    lemma_byte_len_take_increasing(s@, a2, a as int);
                } else if a < a2 {
                    lemma_byte_len_take_increasing(s@, a as int, a2);
                }
                if b2 < b {
                    lemma_byte_len_take_increasing(s@, b2, b as int);
                } else if b < b2 {
                    lemma_byte_len_take_increasing(s@, b as int, b2);
                }
            }
        }
        (RowCol::at_position(&chars, a), RowCol::at_position(&chars, b))
    }

    /// Shifts the starting point forward without affecting the end.
    pub fn shift_start_forward(&mut self, shift: usize)
        requires
            shift <= old(self).len,
            old(self).end_pos() <= usize::MAX,
        ensures
            final(self).start == old(self).start + shift,
            final(self).len == old(self).len - shift,
            final(self).end_pos() == old(self).end_pos(),
    {
        self.start = self.start + shift;
        self.len = self.len - shift;
    }

    /// Treats `self` as starting from `other.start` and returns the absolute
    /// span of `self`. Returns `None` when `self` does not fit into `other`.
    pub fn relative_to(self, other: &Self) -> (r: Option<Self>)
        requires
            other.end_pos() <= usize::MAX,
        ensures
            r is Some <==> self.end_pos() <= other.len,
            r is Some ==> r->0 == self.shifted(other.start as int),
    {
        if self.len <= other.len && self.start <= other.len - self.len {
            Some(Span { start: self.start + other.start, len: self.len })
        } else {
            None
        }
    }

    /// Creates a span with `self.start` and `len`.
    pub fn with_length(self, len: usize) -> (r: Self)
        ensures
            r == (Span { start: self.start, len }),
    {
        Self { start: self.start, len }
    }
}

} // verus!
