use vstd::prelude::*;
use crate::text::{chars_of, string_of};

verus! {

/// Whether `c` is an ASCII decimal digit.
pub open spec fn is_digit(c: char) -> bool {
    '0' <= c && c <= '9'
}

/// The value of a decimal digit character.
pub open spec fn digit_value(c: char) -> nat {
    (c as int - '0' as int) as nat
}

/// The character of a decimal digit.
pub open spec fn digit_char(d: nat) -> char {
    ('0' as int + d) as char
}

/// Whether every character of `s` is a decimal digit.
pub open spec fn all_digits(s: Seq<char>) -> bool {
    forall|i: int| 0 <= i < s.len() ==> is_digit(#[trigger] s[i])
}

/// The number written by the decimal digits `s` (most significant first).
pub open spec fn digits_value(s: Seq<char>) -> nat
    decreases s.len(),
{
    if s.len() == 0 {
        0
    } else {
        digits_value(s.drop_last()) * 10 + digit_value(s.last())
    }
}

/// The decimal digits of `n`, without leading zeros.
pub open spec fn nat_digits(n: nat) -> Seq<char>
    decreases n,
{
    if n < 10 {
        seq![digit_char(n)]
    } else {
        nat_digits(n / 10).push(digit_char(n % 10))
    }
}

/// How an integer is written in decimal: an optional minus sign, then its digits.
pub open spec fn int_decimal(n: int) -> Seq<char> {
    if n < 0 {
        seq!['-'] + nat_digits((-n) as nat)
    } else {
        nat_digits(n as nat)
    }
}

/// The integer that `s` writes, as std's integer parsing reads it: an optional
/// `+` or `-`, then one or more decimal digits and nothing else.
pub open spec fn parse_int(s: Seq<char>) -> Option<int> {
    let neg = s.len() > 0 && s[0] == '-';
    let body = if s.len() > 0 && (s[0] == '-' || s[0] == '+') { s.skip(1) } else { s };
    if body.len() == 0 || !all_digits(body) {
        None
    } else if neg {
        Some(-(digits_value(body) as int))
    } else {
        Some(digits_value(body) as int)
    }
}

/// What `str::parse::<i64>` gives: the integer, when it fits.
pub open spec fn parse_i64(s: Seq<char>) -> Option<i64> {
    match parse_int(s) {
        Some(v) => if i64::MIN <= v <= i64::MAX { Some(v as i64) } else { None },
        None => None,
    }
}

/// What `str::parse::<usize>` gives: a non-negative integer that fits (no minus sign accepted).
pub open spec fn parse_usize(s: Seq<char>) -> Option<usize> {
    if s.len() > 0 && s[0] == '-' {
        None
    } else {
        match parse_int(s) {
            Some(v) => if 0 <= v <= usize::MAX { Some(v as usize) } else { None },
            None => None,
        }
    }
}

/// What `str::parse::<u32>` gives.
pub open spec fn parse_u32(s: Seq<char>) -> Option<u32> {
    if s.len() > 0 && s[0] == '-' {
        None
    } else {
        match parse_int(s) {
            Some(v) => if 0 <= v <= u32::MAX { Some(v as u32) } else { None },
            None => None,
        }
    }
}

proof fn lemma_digits_value_push(s: Seq<char>, c: char)
    ensures
        digits_value(s.push(c)) == digits_value(s) * 10 + digit_value(c),
{
    assert(s.push(c).drop_last() =~= s);
}

proof fn lemma_digits_value_grows(s: Seq<char>, k: int)
    requires
        0 <= k <= s.len(),
    ensures
        digits_value(s.take(k)) <= digits_value(s),
    decreases s.len() - k,
{
    if k < s.len() {
        lemma_digits_value_grows(s, k + 1);
        lemma_digits_value_push(s.take(k), s[k]);
        assert(s.take(k + 1) =~= s.take(k).push(s[k]));
    } else {
        assert(s.take(k) =~= s);
    }
}

/// Reads the digits `s[from..]` as a number no larger than `limit`; `None` when a
/// character is not a digit, when there is no digit, or when the number exceeds `limit`.
fn digits_upto(s: &Vec<char>, from: usize, limit: u64) -> (r: Option<u64>)
    requires
        from <= s.len(),
        limit >= 9,
    ensures
        match r {
            Some(v) => s@.skip(from as int).len() > 0 && all_digits(s@.skip(from as int))
                && v == digits_value(s@.skip(from as int)) && v <= limit,
            None => s@.skip(from as int).len() == 0 || !all_digits(s@.skip(from as int))
                || digits_value(s@.skip(from as int)) > limit,
        },
{
    let ghost body = s@.skip(from as int);
    if from == s.len() {
        return None;
    }
    let mut v: u64 = 0;
    let mut i = from;
    let mut over = false;
    while i < s.len()
        invariant
            from <= i <= s.len(),
            limit >= 9,
            body == s@.skip(from as int),
            all_digits(body.take(i - from)),
            !over ==> v == digits_value(body.take(i - from)) && v <= limit,
            over ==> digits_value(body.take(i - from)) > limit,
        decreases s.len() - i,
    {
        let c = s[i];
        if !('0' <= c && c <= '9') {
            assert(body[i - from] == c);
            return None;
        }
        let d = (c as u32 - '0' as u32) as u64;
        proof {
            assert(body.take(i + 1 - from) =~= body.take(i - from).push(c));
            lemma_digits_value_push(body.take(i - from), c);
        }
        if !over {
            if v > (limit - d) / 10 {
                over = true;
                assert(digits_value(body.take(i + 1 - from)) > limit) by (nonlinear_arith)
                    requires
                        digits_value(body.take(i + 1 - from)) == v * 10 + d,
                        v > (limit - d) / 10,
                        d <= 9,
                ;
            } else {
                assert(v * 10 + d <= limit) by (nonlinear_arith)
                    requires v <= (limit - d) / 10, d <= 9, limit >= 9,
                ;
                v = v * 10 + d;
            }
        } else {
            assert(digits_value(body.take(i + 1 - from)) > limit) by (nonlinear_arith)
                requires
                    digits_value(body.take(i + 1 - from)) == digits_value(body.take(i - from)) * 10 + d,
                    digits_value(body.take(i - from)) > limit,
            ;
        }
        i += 1;
    }
    assert(body.take(s.len() - from) =~= body);
    if over {
        None
    } else {
        Some(v)
    }
}

/// `str::parse::<i64>`: an optional sign, then digits; `None` when that is not the form or the number does not fit.
pub fn parse_i64_str(s: &str) -> (r: Option<i64>)
    ensures
        r == parse_i64(s@),
{
    let v = chars_of(s);
    let neg = v.len() > 0 && v[0] == '-';
    let from: usize = if v.len() > 0 && (v[0] == '-' || v[0] == '+') { 1 } else { 0 };
    let limit: u64 = if neg { 9223372036854775808 } else { 9223372036854775807 };
    proof {
        if from == 0 {
            assert(v@.skip(0) =~= v@);
        }
    }
    match digits_upto(&v, from, limit) {
        Some(m) => {
            if neg {
                if m == 9223372036854775808 {
                    Some(i64::MIN)
                } else {
                    Some(-(m as i64))
                }
            } else {
                Some(m as i64)
            }
        },
        None => None,
    }
}

/// `str::parse::<usize>`: an optional `+`, then digits; `None` otherwise or when the number does not fit.
pub fn parse_usize_str(s: &str) -> (r: Option<usize>)
    ensures
        r == parse_usize(s@),
{
    let v = chars_of(s);
    if v.len() > 0 && v[0] == '-' {
        return None;
    }
    let from: usize = if v.len() > 0 && v[0] == '+' { 1 } else { 0 };
    let limit: u64 = usize::MAX as u64;
    proof {
        if from == 0 {
            assert(v@.skip(0) =~= v@);
        }
    }
    match digits_upto(&v, from, limit) {
        Some(m) => Some(m as usize),
        None => None,
    }
}

/// `str::parse::<u32>`: an optional `+`, then digits; `None` otherwise or when the number does not fit.
pub fn parse_u32_str(s: &str) -> (r: Option<u32>)
    ensures
        r == parse_u32(s@),
{
    let v = chars_of(s);
    if v.len() > 0 && v[0] == '-' {
        return None;
    }
    let from: usize = if v.len() > 0 && v[0] == '+' { 1 } else { 0 };
    proof {
        if from == 0 {
            assert(v@.skip(0) =~= v@);
        }
    }
    match digits_upto(&v, from, 4294967295u64) {
        Some(m) => Some(m as u32),
        None => None,
    }
}

/// The character of the digit `d`.
fn digit_to_char(d: u64) -> (c: char)
    requires
        d < 10,
    ensures
        c == digit_char(d as nat),
{
    let b: u8 = 48u8 + d as u8;
    b as char
}

/// The decimal digits of `n`.
pub fn u64_digits(n: u64) -> (r: Vec<char>)
    ensures
        r@ == nat_digits(n as nat),
    decreases n,
{
    if n < 10 {
        let mut r = Vec::new();
        r.push(digit_to_char(n));
        r
    } else {
        let mut r = u64_digits(n / 10);
        r.push(digit_to_char(n % 10));
        r
    }
}

/// How `n` is written in decimal, as `i64::to_string` writes it.
pub fn i64_to_string(n: i64) -> (r: String)
    ensures
        r@ == int_decimal(n as int),
{
    if n < 0 {
        let m: u64 = if n == i64::MIN { 9223372036854775808u64 } else { (-n) as u64 };
        let mut v = Vec::new();
        v.push('-');
        let mut d = u64_digits(m);
        v.append(&mut d);
        assert(v@ =~= seq!['-'] + nat_digits(m as nat));
        string_of(&v)
    } else {
        let d = u64_digits(n as u64);
        string_of(&d)
    }
}

} // verus!
