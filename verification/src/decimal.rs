//! Decimal text for integers: rendering (`to_string`) and parsing (`str::parse`).

use vstd::prelude::*;
use crate::chars::{push_char, string_of};

verus! {

/// The ASCII digit for `d` (`0 <= d < 10`).
pub open spec fn digit_char(d: nat) -> char {
    (('0' as u32) + d) as char
}

/// Whether `c` is an ASCII decimal digit.
pub open spec fn is_digit(c: char) -> bool {
    '0' <= c <= '9'
}

/// Value of an ASCII digit.
pub open spec fn digit_value(c: char) -> nat {
    ((c as u32) - ('0' as u32)) as nat
}

/// Decimal digits of `n`, most significant first, without leading zeros
/// (`"0"` for zero).
pub open spec fn dec_digits(n: nat) -> Seq<char>
    decreases n,
{
    if n < 10 {
        seq![digit_char(n)]
    } else {
        dec_digits(n / 10).push(digit_char(n % 10))
    }
}

/// Decimal text of a signed integer, with a leading `-` when negative.
pub open spec fn dec_int(n: int) -> Seq<char> {
    if n < 0 {
        seq!['-'] + dec_digits((-n) as nat)
    } else {
        dec_digits(n as nat)
    }
}

/// Whether every character of `s` is a digit.
pub open spec fn all_digits(s: Seq<char>) -> bool {
    forall|i: int| 0 <= i < s.len() ==> is_digit(#[trigger] s[i])
}

/// The number written by the digit string `s` (leading zeros allowed).
pub open spec fn digits_value(s: Seq<char>) -> nat
    decreases s.len(),
{
    if s.len() == 0 {
        0
    } else {
        digits_value(s.drop_last()) * 10 + digit_value(s.last())
    }
}

/// The magnitude part of an integer literal: at least one digit, all digits.
pub open spec fn parse_magnitude(s: Seq<char>) -> Option<nat> {
    if s.len() > 0 && all_digits(s) {
        Some(digits_value(s))
    } else {
        None
    }
}

/// `str::parse::<u32>`: an optional `+`, then one or more ASCII digits, with
/// a value that fits in `u32`; `None` for anything else.
pub open spec fn parse_u32_spec(s: Seq<char>) -> Option<u32> {
    let body = if s.len() > 0 && s[0] == '+' {
        s.drop_first()
    } else {
        s
    };
    match parse_magnitude(body) {
        Some(v) => if v <= u32::MAX {
            Some(v as u32)
        } else {
            None
        },
        None => None,
    }
}

/// `str::parse::<i32>`: an optional `+` or `-`, then one or more ASCII digits,
/// with a value in `i32` range; `None` for anything else.
pub open spec fn parse_i32_spec(s: Seq<char>) -> Option<i32> {
    let neg = s.len() > 0 && s[0] == '-';
    let body = if s.len() > 0 && (s[0] == '+' || s[0] == '-') {
        s.drop_first()
    } else {
        s
    };
    match parse_magnitude(body) {
        Some(v) => {
            let x: int = if neg {
                -(v as int)
            } else {
                v as int
            };
            if i32::MIN <= x <= i32::MAX {
                Some(x as i32)
            } else {
                None
            }
        },
        None => None,
    }
}

/// Decimal digits of `n` as characters.
pub fn u64_digits(n: u64) -> (v: Vec<char>)
    ensures
        v@ == dec_digits(n as nat),
    decreases n,
{
    if n < 10 {
        let mut v: Vec<char> = Vec::new();
        v.push(char_of_digit(n));
        v
    } else {
        let mut v = u64_digits(n / 10);
        v.push(char_of_digit(n % 10));
        v
    }
}

fn char_of_digit(d: u64) -> (c: char)
    requires
        d < 10,
    ensures
        c == digit_char(d as nat),
{
    let chars: [char; 10] = ['0', '1', '2', '3', '4', '5', '6', '7', '8', '9'];
    let c = chars[d as usize];
    proof {
        assert(c == digit_char(d as nat)) by {
            if d == 0 {} else if d == 1 {} else if d == 2 {} else if d == 3 {} else if d == 4 {}
            else if d == 5 {} else if d == 6 {} else if d == 7 {} else if d == 8 {} else {}
        }
    }
    c
}

} // verus!

verus! {

/// `n.to_string()` for a signed integer.
pub fn i64_to_string(n: i64) -> (s: String)
    ensures
        s@ == dec_int(n as int),
{
    if n < 0 {
        let mag: u64 = (0i128 - (n as i128)) as u64;
        let d = u64_digits(mag);
        let mut s = String::new();
        push_char(&mut s, '-');
        let mut i: usize = 0;
        while i < d.len()
            invariant
                i <= d.len(),
                s@ == seq!['-'] + d@.take(i as int),
            decreases d.len() - i,
        {
            push_char(&mut s, d[i]);
            i = i + 1;
            assert(s@ =~= seq!['-'] + d@.take(i as int));
        }
        assert(d@.take(d.len() as int) =~= d@);
        s
    } else {
        let d = u64_digits(n as u64);
        string_of(d.as_slice())
    }
}

pub proof fn lemma_digits_value_prefix(s: Seq<char>, k: int)
    requires
        0 <= k <= s.len(),
    ensures
        digits_value(s.take(k)) <= digits_value(s),
    decreases s.len() - k,
{
    if k < s.len() {
        lemma_digits_value_prefix(s, k + 1);
        assert(s.take(k + 1).drop_last() =~= s.take(k));
    } else {
        assert(s.take(k) =~= s);
    }
}

/// Reads the digits of `s[start..]`: `Some(value)` when there is at least one
/// character, all are digits and the value is at most `limit`; otherwise `None`.
fn parse_digits_bounded(s: &[char], start: usize, limit: u64) -> (r: Option<u64>)
    requires
        start <= s.len(),
        limit <= 0x1_0000_0000,
    ensures
        r == (match parse_magnitude(s@.subrange(start as int, s@.len() as int)) {
            Some(v) => if v <= limit {
                Some(v as u64)
            } else {
                None::<u64>
            },
            None => None,
        }),
{
    let ghost body = s@.subrange(start as int, s@.len() as int);
    let n = s.len();
    if start >= n {
        return None;
    }
    let mut i: usize = start;
    while i < n
        invariant
            start <= i <= n,
            n == s@.len(),
            body == s@.subrange(start as int, n as int),
            forall|k: int| start <= k < i ==> is_digit(#[trigger] s@[k]),
        decreases n - i,
    {
        if !('0' <= s[i] && s[i] <= '9') {
            assert(body[i - start] == s@[i as int]);
            assert(!is_digit(body[i - start]));
            return None;
        }
        i = i + 1;
    }
    assert(all_digits(body)) by {
        assert forall|k: int| 0 <= k < body.len() implies is_digit(#[trigger] body[k]) by {
            assert(body[k] == s@[k + start]);
        }
    }
    let mut acc: u64 = 0;
    let mut j: usize = start;
    while j < n
        invariant
            start <= j <= n,
            n == s@.len(),
            body == s@.subrange(start as int, n as int),
            all_digits(body),
            acc as nat == digits_value(body.take(j - start)),
            acc <= limit,
            limit <= 0x1_0000_0000,
        decreases n - j,
    {
        assert(body[j - start] == s@[j as int]);
        assert(is_digit(body[j - start]));
        let d = ((s[j] as u32) - ('0' as u32)) as u64;
        assert(body.take(j - start + 1).drop_last() =~= body.take(j - start));
        assert(body.take(j - start + 1).last() == s@[j as int]);
        let next = acc * 10 + d;
        if next > limit {
            proof {
                lemma_digits_value_prefix(body, j - start + 1);
            }
            return None;
        }
        acc = next;
        j = j + 1;
    }
    assert(body.take(n - start) =~= body);
    Some(acc)
}

/// `s.parse::<u32>().ok()`.
pub fn parse_u32(s: &str) -> (r: Option<u32>)
    ensures
        r == parse_u32_spec(s@),
{
    let v = crate::chars::chars_of(s);
    let start: usize = if v.len() > 0 && v[0] == '+' {
        1
    } else {
        0
    };
    assert(start == 1 ==> v@.drop_first() =~= v@.subrange(1, v@.len() as int));
    assert(start == 0 ==> v@ =~= v@.subrange(0, v@.len() as int));
    match parse_digits_bounded(v.as_slice(), start, 0xFFFF_FFFF) {
        Some(x) => Some(x as u32),
        None => None,
    }
}

/// `s.parse::<i32>().ok()`.
pub fn parse_i32(s: &str) -> (r: Option<i32>)
    ensures
        r == parse_i32_spec(s@),
{
    let v = crate::chars::chars_of(s);
    parse_i32_chars(v.as_slice())
}

/// `str::parse::<i32>` over a character slice.
pub fn parse_i32_chars(v: &[char]) -> (r: Option<i32>)
    ensures
        r == parse_i32_spec(v@),
{
    let neg = v.len() > 0 && v[0] == '-';
    let start: usize = if v.len() > 0 && (v[0] == '+' || v[0] == '-') {
        1
    } else {
        0
    };
    assert(start == 1 ==> v@.drop_first() =~= v@.subrange(1, v@.len() as int));
    assert(start == 0 ==> v@ =~= v@.subrange(0, v@.len() as int));
    let limit: u64 = if neg {
        0x8000_0000
    } else {
        0x7FFF_FFFF
    };
    match parse_digits_bounded(v, start, limit) {
        Some(x) => {
            if neg {
                Some((0i64 - (x as i64)) as i32)
            } else {
                Some(x as i32)
            }
        },
        None => None,
    }
}

} // verus!
