//! Integer literals: an optional sign, then decimal digits, within `i32`.

use vstd::prelude::*;

verus! {

/// `c` is one of the ten ASCII decimal digits.
pub open spec fn is_digit(c: char) -> bool {
    '0' <= c <= '9'
}

/// The number that the digit `c` stands for.
pub open spec fn digit_value(c: char) -> int {
    c as int - '0' as int
}

/// Every character of `s` is a decimal digit.
pub open spec fn all_digits(s: Seq<char>) -> bool {
    forall|i: int| 0 <= i < s.len() ==> is_digit(#[trigger] s[i])
}

/// The number that the digit string `s` denotes in base ten; 0 for the empty string.
pub open spec fn digits_value(s: Seq<char>) -> int
    decreases s.len(),
{
    if s.len() == 0 {
        0
    } else {
        digits_value(s.drop_last()) * 10 + digit_value(s.last())
    }
}

/// `s` starts with a sign character.
pub open spec fn has_sign(s: Seq<char>) -> bool {
    s.len() > 0 && (s[0] == '+' || s[0] == '-')
}

/// The digits of `s`: all of it but a leading sign.
pub open spec fn digits_of(s: Seq<char>) -> Seq<char> {
    if has_sign(s) {
        s.subrange(1, s.len() as int)
    } else {
        s
    }
}

/// `s` has the shape of a literal: at most one sign in front, then one digit or more.
pub open spec fn is_literal(s: Seq<char>) -> bool {
    digits_of(s).len() > 0 && all_digits(digits_of(s))
}

/// The mathematical value of a string that has the shape of a literal.
pub open spec fn literal_value(s: Seq<char>) -> int {
    if has_sign(s) && s[0] == '-' {
        -digits_value(digits_of(s))
    } else {
        digits_value(digits_of(s))
    }
}

/// What `s` parses to: its value where it is a literal within `i32`, else nothing.
pub open spec fn parsed(s: Seq<char>) -> Option<i32> {
    if is_literal(s) && i32::MIN <= literal_value(s) <= i32::MAX {
        Some(literal_value(s) as i32)
    } else {
        None
    }
}

/// `s` is an atomic expression: a single integer literal that fits in `i32`.
pub open spec fn is_atomic(s: Seq<char>) -> bool {
    parsed(s).is_some()
}

/// Parses `s` as a signed decimal integer.
pub fn parse_number(s: &str) -> (r: Option<i32>)
    ensures
        r == parsed(s@),
{
    let n: usize = s.unicode_len();
    if n == 0 {
        return None;
    }
    let first: char = s.get_char(0);
    let negative: bool = first == '-';
    let start: usize = if first == '+' || first == '-' { 1 } else { 0 };
    if start == n {
        return None;
    }
    let ghost body = digits_of(s@);
    let limit: i64 = 2147483648;
    let mut acc: i64 = 0;
    let mut big: bool = false;
    let mut i: usize = start;
    while i < n
        invariant
            start <= i <= n,
            n == s@.len(),
            body == digits_of(s@),
            body == s@.subrange(start as int, n as int),
            negative == (has_sign(s@) && s@[0] == '-'),
            all_digits(body.take(i - start)),
            big ==> digits_value(body.take(i - start)) > limit,
            !big ==> acc == digits_value(body.take(i - start)) && 0 <= acc <= limit,
            limit == 2147483648,
        decreases n - i,
    {
        let c: char = s.get_char(i);
        if !(c >= '0' && c <= '9') {
            assert(body[i - start] == c);
            assert(!is_digit(body[i - start]));
            return None;
        }
        let d: i64 = (c as u32 - '0' as u32) as i64;
        proof {
            let next = body.take(i + 1 - start);
            assert(next.drop_last() =~= body.take(i - start));
            assert(next.last() == c);
            assert(digits_value(next) == digits_value(body.take(i - start)) * 10 + digit_value(c));
            assert(all_digits(next)) by {
                assert forall|k: int| 0 <= k < next.len() implies is_digit(#[trigger] next[k]) by {
                    if k < i - start {
                        assert(next[k] == body.take(i - start)[k]);
                    }
                }
            }
        }
        if !big {
            acc = acc * 10 + d;
            if acc > limit {
                big = true;
            }
        }
        i += 1;
    }
    assert(body.take(n - start) =~= body);
    if big {
        None
    } else if negative {
        Some((-acc) as i32)
    } else if acc == limit {
        None
    } else {
        Some(acc as i32)
    }
}

/// Tells whether `s` is an atomic expression.
pub fn is_number(s: &str) -> (b: bool)
    ensures
        b == is_atomic(s@),
{
    parse_number(s).is_some()
}

} // verus!
