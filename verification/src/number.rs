//! Integers in decimal: written to a text and read from one.

use vstd::prelude::*;

verus! {

/// The character of the decimal digit `d`.
pub open spec fn digit(d: int) -> char {
    if d == 0 {
        '0'
    } else if d == 1 {
        '1'
    } else if d == 2 {
        '2'
    } else if d == 3 {
        '3'
    } else if d == 4 {
        '4'
    } else if d == 5 {
        '5'
    } else if d == 6 {
        '6'
    } else if d == 7 {
        '7'
    } else if d == 8 {
        '8'
    } else {
        '9'
    }
}

/// The decimal numeral of `n`, without leading zeros.
pub open spec fn decimal(n: nat) -> Seq<char>
    decreases n,
{
    if n < 10 {
        seq![digit(n as int)]
    } else {
        decimal(n / 10).push(digit((n % 10) as int))
    }
}

/// The decimal numeral of `v`, with a minus sign in front where `v` is negative.
pub open spec fn signed_decimal(v: int) -> Seq<char> {
    if v < 0 {
        seq!['-'] + decimal((-v) as nat)
    } else {
        decimal(v as nat)
    }
}

/// The character of a digit.
fn digit_char(d: u64) -> (c: char)
    requires
        d < 10,
    ensures
        c == digit(d as int),
{
    if d == 0 {
        '0'
    } else if d == 1 {
        '1'
    } else if d == 2 {
        '2'
    } else if d == 3 {
        '3'
    } else if d == 4 {
        '4'
    } else if d == 5 {
        '5'
    } else if d == 6 {
        '6'
    } else if d == 7 {
        '7'
    } else if d == 8 {
        '8'
    } else {
        '9'
    }
}

/// Appends the decimal numeral of `n` to `out`.
pub fn push_decimal(out: &mut String, n: u64)
    ensures
        final(out)@ == old(out)@ + decimal(n as nat),
    decreases n,
{
    if n >= 10 {
        push_decimal(out, n / 10);
    }
    out.push(digit_char(n % 10));
}

/// Appends the decimal numeral of `v`, signed where negative, to `out`.
pub fn push_signed_decimal(out: &mut String, v: i64)
    ensures
        final(out)@ == old(out)@ + signed_decimal(v as int),
{
    if v < 0 {
        out.push('-');
        // The magnitude of the least `i64` does not fit in an `i64`.
        let magnitude: u64 = (-(v + 1)) as u64 + 1;
        push_decimal(out, magnitude);
    } else {
        push_decimal(out, v as u64);
    }
}

/// The value of a decimal digit character; `None` for every other character.
pub open spec fn digit_value(c: char) -> Option<int> {
    if c == '0' {
        Some(0)
    } else if c == '1' {
        Some(1)
    } else if c == '2' {
        Some(2)
    } else if c == '3' {
        Some(3)
    } else if c == '4' {
        Some(4)
    } else if c == '5' {
        Some(5)
    } else if c == '6' {
        Some(6)
    } else if c == '7' {
        Some(7)
    } else if c == '8' {
        Some(8)
    } else if c == '9' {
        Some(9)
    } else {
        None
    }
}

/// Whether `s` is a non-empty run of decimal digits.
pub open spec fn is_numeral(s: Seq<char>) -> bool {
    s.len() > 0 && forall|i: int| 0 <= i < s.len() ==> (#[trigger] digit_value(s[i])) is Some
}

/// The number that the digits of `s` write in base ten.
pub open spec fn numeral_value(s: Seq<char>) -> nat
    decreases s.len(),
{
    if s.len() == 0 {
        0
    } else {
        (10 * numeral_value(s.drop_last()) + digit_value(s.last()).unwrap()) as nat
    }
}

/// The integer that `s` writes: an optional `+` or `-`, then one or more decimal digits
/// and nothing else, with a value that an `i64` holds. `None` for every other text.
pub open spec fn integer_of(s: Seq<char>) -> Option<int> {
    let signed = s.len() > 0 && (s[0] == '-' || s[0] == '+');
    let body = if signed {
        s.skip(1)
    } else {
        s
    };
    let value = if signed && s[0] == '-' {
        -numeral_value(body)
    } else {
        numeral_value(body) as int
    };
    if is_numeral(body) && i64::MIN <= value <= i64::MAX {
        Some(value)
    } else {
        None
    }
}

/// The digit of a character, if it is one.
fn digit_of(c: char) -> (d: Option<u64>)
    ensures
        d is Some <==> digit_value(c) is Some,
        d matches Some(v) ==> digit_value(c) == Some(v as int),
{
    if c == '0' {
        Some(0)
    } else if c == '1' {
        Some(1)
    } else if c == '2' {
        Some(2)
    } else if c == '3' {
        Some(3)
    } else if c == '4' {
        Some(4)
    } else if c == '5' {
        Some(5)
    } else if c == '6' {
        Some(6)
    } else if c == '7' {
        Some(7)
    } else if c == '8' {
        Some(8)
    } else if c == '9' {
        Some(9)
    } else {
        None
    }
}

/// A numeral's value does not shrink when a digit is appended.
proof fn lemma_numeral_value_grows(s: Seq<char>, c: char)
    requires
        digit_value(c) is Some,
    ensures
        numeral_value(s.push(c)) == 10 * numeral_value(s) + digit_value(c).unwrap(),
        numeral_value(s.push(c)) >= numeral_value(s),
{
    assert(s.push(c).drop_last() =~= s);
}

/// A decimal numeral is a numeral, and its value is the number that it was written for.
pub proof fn lemma_decimal_is_numeral(n: nat)
    ensures
        is_numeral(decimal(n)),
        numeral_value(decimal(n)) == n,
    decreases n,
{
    if n >= 10 {
        lemma_decimal_is_numeral(n / 10);
        let front = decimal(n / 10);
        assert(decimal(n).drop_last() =~= front);
    } else {
        assert(decimal(n).drop_last() =~= Seq::<char>::empty());
        assert(numeral_value(Seq::<char>::empty()) == 0);
    }
}

/// Reading gives back the integer that was written.
pub proof fn lemma_written_integer_is_read(v: int)
    requires
        i64::MIN <= v <= i64::MAX,
    ensures
        integer_of(signed_decimal(v)) == Some(v),
{
    if v < 0 {
        lemma_decimal_is_numeral((-v) as nat);
        assert(signed_decimal(v).skip(1) =~= decimal((-v) as nat));
    } else {
        lemma_decimal_is_numeral(v as nat);
        assert(digit_value(decimal(v as nat)[0]) is Some);
    }
}

/// Reads `s` as a signed decimal integer.
pub fn parse_integer(s: &str) -> (r: Option<i64>)
    ensures
        r is Some <==> integer_of(s@) is Some,
        r matches Some(v) ==> integer_of(s@) == Some(v as int),
{
    // 2^63, the largest magnitude that a negative `i64` has.
    let limit: u64 = 9223372036854775808;
    let mut first = true;
    let mut signed = false;
    let mut negative = false;
    let mut any_digit = false;
    let mut magnitude: u64 = 0;
    let mut too_large = false;
    for c in it: s.chars()
        invariant
            it.seq() == s@,
            limit == 9223372036854775808,
            first <==> it.index() == 0,
            signed <==> it.index() > 0 && (s@[0] == '-' || s@[0] == '+'),
            negative <==> signed && s@[0] == '-',
            any_digit <==> it.index() > (if signed { 1int } else { 0int }),
            forall|j: int|
                (if signed { 1int } else { 0int }) <= j < it.index() ==> (#[trigger] digit_value(
                    s@[j],
                )) is Some,
            !too_large ==> magnitude == numeral_value(
                s@.subrange(if signed { 1int } else { 0int }, it.index() as int),
            ) && magnitude <= limit,
            too_large ==> numeral_value(
                s@.subrange(if signed { 1int } else { 0int }, it.index() as int),
            ) > limit,
    {
        let ghost i = it.index() as int;
        if first && (c == '-' || c == '+') {
            signed = true;
            negative = c == '-';
        } else {
            let ghost start = if signed { 1int } else { 0int };
            match digit_of(c) {
                None => {
                    proof {
                        let body = if s@[0] == '-' || s@[0] == '+' { s@.skip(1) } else { s@ };
                        assert(body[i - start] == s@[i]);
                    }
                    return None;
                },
                Some(d) => {
                    proof {
                        assert(s@.subrange(start, i + 1) =~= s@.subrange(start, i).push(c));
                        lemma_numeral_value_grows(s@.subrange(start, i), c);
                    }
                    any_digit = true;
                    if !too_large {
                        if magnitude > (limit - d) / 10 {
                            too_large = true;
                        } else {
                            magnitude = magnitude * 10 + d;
                        }
                    }
                },
            }
        }
        first = false;
    }
    proof {
        let start = if signed { 1int } else { 0int };
        let body = if signed { s@.skip(1) } else { s@ };
        assert(s@.subrange(start, s@.len() as int) =~= body);
    }
    if !any_digit || too_large {
        None
    } else if negative {
        if magnitude == limit {
            Some(i64::MIN)
        } else {
            Some(-(magnitude as i64))
        }
    } else if magnitude > 9223372036854775807 {
        None
    } else {
        Some(magnitude as i64)
    }
}

} // verus!
