//! Decimal numerals: how integers are written into text and read back.

use vstd::prelude::*;

verus! {

/// The digit `'0'`..`'9'` that stands for `d`, for `d` below ten.
pub open spec fn digit_char(d: nat) -> char {
    if d == 0 {
        '0'
    } else if d == 1 {
        '1'
    } else if d == 2 {
        '2'
    } else if d == 3 {
        '3'
    } else if d == 4 {
        '4'
    } else if d == 5 {
        '5'
    } else if d == 6 {
        '6'
    } else if d == 7 {
        '7'
    } else if d == 8 {
        '8'
    } else {
        '9'
    }
}

/// Whether `c` is one of `'0'`..`'9'`.
pub open spec fn is_digit(c: char) -> bool {
    '0' <= c <= '9'
}

/// The value of the digit `c`.
pub open spec fn digit_value(c: char) -> nat {
    (c as u32 - '0' as u32) as nat
}

/// The decimal numeral of `n`, without leading zeros.
pub open spec fn digits(n: nat) -> Seq<char>
    decreases n,
{
    if n < 10 {
        seq![digit_char(n)]
    } else {
        digits(n / 10).push(digit_char(n % 10))
    }
}

/// The decimal numeral of `v`, with a leading `-` where it is negative.
pub open spec fn decimal(v: int) -> Seq<char> {
    if v < 0 {
        seq!['-'] + digits((-v) as nat)
    } else {
        digits(v as nat)
    }
}

/// The number that a sequence of digits denotes.
pub open spec fn digits_value(s: Seq<char>) -> nat
    decreases s.len(),
{
    if s.len() == 0 {
        0
    } else {
        digits_value(s.drop_last()) * 10 + digit_value(s.last())
    }
}

/// Whether every character of `s` is a digit.
pub open spec fn all_digits(s: Seq<char>) -> bool {
    forall|i: int| 0 <= i < s.len() ==> is_digit(#[trigger] s[i])
}

/// The digits of a numeral, after its sign.
pub open spec fn numeral_digits(s: Seq<char>) -> Seq<char> {
    if s.len() > 0 && (s[0] == '-' || s[0] == '+') {
        s.skip(1)
    } else {
        s
    }
}

/// The integer that the text `s` denotes, if it is a numeral: an optional
/// sign `+` or `-`, then one or more digits.
pub open spec fn numeral_value(s: Seq<char>) -> Option<int> {
    let ds = numeral_digits(s);
    if ds.len() == 0 || !all_digits(ds) {
        None
    } else if s[0] == '-' {
        Some(-(digits_value(ds) as int))
    } else {
        Some(digits_value(ds) as int)
    }
}

/// What reading `s` as a signed 128-bit integer gives: its value where `s`
/// is a numeral whose value fits, nothing otherwise.
pub open spec fn parsed_i128(s: Seq<char>) -> Option<i128> {
    match numeral_value(s) {
        Some(v) => if i128::MIN <= v <= i128::MAX {
            Some(v as i128)
        } else {
            None
        },
        None => None,
    }
}

/// The digits of a number are digits, and they denote that number.
pub proof fn lemma_digits_round_trip(n: nat)
    ensures
        all_digits(digits(n)),
        digits(n).len() > 0,
        digits_value(digits(n)) == n,
        digits(n)[0] != '-' && digits(n)[0] != '+',
    decreases n,
{
    if n < 10 {
        assert(digits(n).drop_last() =~= Seq::<char>::empty());
        assert(digits_value(digits(n)) == n) by {
            reveal_with_fuel(digits_value, 2);
        }
    } else {
        lemma_digits_round_trip(n / 10);
        let d = digits(n / 10);
        assert(digits(n).drop_last() =~= d);
        assert(digits(n).last() == digit_char(n % 10));
        assert forall|i: int| 0 <= i < digits(n).len() implies is_digit(#[trigger] digits(n)[i]) by {
            if i < d.len() {
                assert(digits(n)[i] == d[i]);
            }
        }
        assert(digits(n)[0] == d[0]);
    }
}

/// Reading the numeral of a number gives the number back.
pub proof fn law_numeral_round_trip(v: int)
    ensures
        numeral_value(decimal(v)) == Some(v),
{
    if v < 0 {
        let n = (-v) as nat;
        lemma_digits_round_trip(n);
        assert(decimal(v).skip(1) =~= digits(n));
    } else {
        lemma_digits_round_trip(v as nat);
    }
}

/// The digit that stands for `d`.
fn digit_of(d: u8) -> (c: char)
    requires
        d < 10,
    ensures
        c == digit_char(d as nat),
{
    if d == 0 {
        '0'
    } else if d == 1 {
        '1'
    } else if d == 2 {
        '2'
    } else if d == 3 {
        '3'
    } else if d == 4 {
        '4'
    } else if d == 5 {
        '5'
    } else if d == 6 {
        '6'
    } else if d == 7 {
        '7'
    } else if d == 8 {
        '8'
    } else {
        '9'
    }
}

/// The decimal numeral of `n`.
pub fn digits_of(n: u128) -> (r: Vec<char>)
    ensures
        r@ == digits(n as nat),
    decreases n,
{
    if n < 10 {
        let mut r: Vec<char> = Vec::new();
        r.push(digit_of(n as u8));
        r
    } else {
        let mut r = digits_of(n / 10);
        r.push(digit_of((n % 10) as u8));
        r
    }
}

/// The decimal numeral of `v`.
pub fn decimal_of(v: i128) -> (r: Vec<char>)
    ensures
        r@ == decimal(v as int),
{
    if v < 0 {
        let magnitude: u128 = ((-(v + 1)) as u128) + 1;
        let ds = digits_of(magnitude);
        let mut r: Vec<char> = Vec::new();
        r.push('-');
        let mut i: usize = 0;
        while i < ds.len()
            invariant
                i <= ds.len(),
                r@ == seq!['-'] + ds@.take(i as int),
            decreases ds.len() - i,
        {
            r.push(ds[i]);
            i += 1;
        }
        proof {
            assert(ds@.take(ds@.len() as int) =~= ds@);
        }
        r
    } else {
        digits_of(v as u128)
    }
}

/// Reads `s` as a signed 128-bit integer in decimal.
pub fn parse_i128(s: &Vec<char>) -> (r: Option<i128>)
    ensures
        r == parsed_i128(s@),
{
    let n = s.len();
    if n == 0 {
        return None;
    }
    let negative = s[0] == '-';
    let first: usize = if s[0] == '-' || s[0] == '+' {
        1
    } else {
        0
    };
    if first == n {
        assert(numeral_digits(s@).len() == 0);
        return None;
    }
    let ghost ds = numeral_digits(s@);
    assert(ds =~= s@.skip(first as int));
    // The running value is kept negated, so that the least integer is reached.
    let mut acc: i128 = 0;
    let mut overflow = false;
    let mut i: usize = first;
    while i < n
        invariant
            first <= i <= n,
            n == s@.len(),
            ds == s@.skip(first as int),
            ds == numeral_digits(s@),
            negative == (s@[0] == '-'),
            all_digits(ds.take(i - first)),
            !overflow ==> acc == -(digits_value(ds.take(i - first)) as int),
            overflow ==> digits_value(ds.take(i - first)) > -(i128::MIN as int),
        decreases n - i,
    {
        let c = s[i];
        if !(c >= '0' && c <= '9') {
            proof {
                assert(ds[i - first] == c);
                assert(!all_digits(ds));
            }
            return None;
        }
        let d: i128 = (c as u32 - '0' as u32) as i128;
        proof {
            let next = ds.take(i - first + 1);
            assert(next.drop_last() =~= ds.take(i - first));
            assert(next.last() == c);
            assert forall|j: int| 0 <= j < next.len() implies is_digit(#[trigger] next[j]) by {
                if j < i - first {
                    assert(ds.take(i - first)[j] == next[j]);
                }
            }
        }
        if !overflow {
            if acc < i128::MIN / 10 {
                overflow = true;
            } else {
                let t: i128 = acc * 10;
                if t < i128::MIN + d {
                    overflow = true;
                } else {
                    acc = t - d;
                }
            }
        }
        i += 1;
    }
    proof {
        assert(ds.take(n - first) =~= ds);
    }
    if overflow {
        None
    } else if negative {
        Some(acc)
    } else if acc == i128::MIN {
        None
    } else {
        Some(-acc)
    }
}

} // verus!
