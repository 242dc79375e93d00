//! Reading a duration, in rounds, from its decimal text.

use vstd::prelude::*;
use vstd::std_specs::iter::IteratorSpec;

verus! {

/// Whether `c` is one of the ASCII digits `0` to `9`.
pub open spec fn is_digit(c: char) -> bool {
    '0' <= c && c <= '9'
}

/// The number that the digit `c` stands for.
pub open spec fn digit_value(c: char) -> nat {
    (c as nat - '0' as nat) as nat
}

/// The digit that stands for a number below ten.
pub open spec fn digit_of(n: nat) -> char
    recommends
        n < 10,
{
    (('0' as u8 + n) as u8) as char
}

/// Whether every character of `digits` is a decimal digit.
pub open spec fn all_digits(digits: Seq<char>) -> bool {
    forall|i: int| 0 <= i < digits.len() ==> is_digit(#[trigger] digits[i])
}

/// The number that a sequence of decimal digits stands for, most significant digit first.
pub open spec fn decimal_value(digits: Seq<char>) -> nat
    decreases digits.len(),
{
    if digits.len() == 0 {
        0
    } else {
        10 * decimal_value(digits.drop_last()) + digit_value(digits.last())
    }
}

/// The decimal digits of a number, without leading zeros.
pub open spec fn decimal_text(n: nat) -> Seq<char>
    decreases n,
{
    if n < 10 {
        seq![digit_of(n)]
    } else {
        decimal_text(n / 10).push(digit_of(n % 10))
    }
}

/// The digits of a token: the token itself, without one leading `+` if it has one.
pub open spec fn unsigned_part(token: Seq<char>) -> Seq<char> {
    if token.len() > 0 && token[0] == '+' {
        token.skip(1)
    } else {
        token
    }
}

/// Whether a token is a decimal number that is not negative: an optional `+`, then one or
/// more decimal digits and nothing else.
pub open spec fn is_decimal_number(token: Seq<char>) -> bool {
    unsigned_part(token).len() > 0 && all_digits(unsigned_part(token))
}

/// The duration that a token stands for, if it stands for one: a decimal number that is
/// not negative and fits in a `u8`.
pub open spec fn parse_duration_spec(token: Seq<char>) -> Option<u8> {
    if is_decimal_number(token) && decimal_value(unsigned_part(token)) <= u8::MAX {
        Some(decimal_value(unsigned_part(token)) as u8)
    } else {
        None
    }
}

/// A number does not shrink when more digits follow it.
proof fn lemma_decimal_value_grows(digits: Seq<char>, n: int)
    requires
        0 <= n <= digits.len(),
    ensures
        decimal_value(digits.take(n)) <= decimal_value(digits),
    decreases digits.len() - n,
{
    if n < digits.len() {
        lemma_decimal_value_grows(digits, n + 1);
        assert(digits.take(n + 1).drop_last() =~= digits.take(n));
    } else {
        assert(digits.take(n) =~= digits);
    }
}

/// The decimal digits of a number are digits, begin with one, and stand for the number.
pub proof fn lemma_decimal_text(n: nat)
    ensures
        decimal_text(n).len() > 0,
        all_digits(decimal_text(n)),
        decimal_value(decimal_text(n)) == n,
    decreases n,
{
    if n < 10 {
        let text = decimal_text(n);
        assert(text.drop_last() =~= Seq::<char>::empty());
        assert(decimal_value(text.drop_last()) == 0);
        assert(text.last() == digit_of(n));
    } else {
        lemma_decimal_text(n / 10);
        let text = decimal_text(n);
        assert(text.drop_last() =~= decimal_text(n / 10));
        assert(text.last() == digit_of(n % 10));
    }
}

/// Every duration that fits in a `u8` is read back from its decimal digits.
pub proof fn lemma_decimal_text_parses(n: nat)
    requires
        n <= u8::MAX,
    ensures
        parse_duration_spec(decimal_text(n)) == Some(n as u8),
{
    lemma_decimal_text(n);
    assert(is_digit(decimal_text(n)[0]));
}

/// A token with a minus sign in front, or with anything else that is no digit in or
/// after the place a sign may take, stands for no duration.
pub proof fn lemma_not_a_number(token: Seq<char>, i: int)
    requires
        0 <= i < token.len(),
        !is_digit(token[i]),
        i > 0 || token[0] != '+',
    ensures
        !is_decimal_number(token),
        parse_duration_spec(token).is_none(),
{
    let digits = unsigned_part(token);
    if token[0] == '+' {
        assert(!is_digit(digits[i - 1]));
    } else {
        assert(!is_digit(digits[i]));
    }
}

/// Reads a duration from its decimal text.
pub fn parse_duration(token: &str) -> (r: Option<u8>)
    ensures
        r == parse_duration_spec(token@),
{
    let ghost digits = unsigned_part(token@);
    let mut chars = token.chars();
    let mut next = chars.next();
    if next == Some('+') {
        next = chars.next();
    }
    if next.is_none() {
        return None;
    }
    let mut value: u32 = 0;
    let ghost mut n: int = 0;
    loop
        invariant
            digits == unsigned_part(token@),
            0 <= n <= digits.len(),
            0 < digits.len(),
            n < digits.len() ==> next == Some(digits[n]) && chars.remaining() == digits.skip(n + 1),
            n == digits.len() ==> next.is_none(),
            all_digits(digits.take(n)),
            value == decimal_value(digits.take(n)),
            value <= u8::MAX,
        decreases digits.len() - n,
    {
        match next {
            None => {
                assert(digits.take(n) =~= digits);
                return Some(value as u8);
            },
            Some(c) => {
                if !(c >= '0' && c <= '9') {
                    return None;
                }
                let digit: u32 = c as u32 - '0' as u32;
                let longer: u32 = value * 10 + digit;
                proof {
                    assert(digits.take(n + 1).drop_last() =~= digits.take(n));
                    lemma_decimal_value_grows(digits, n + 1);
                }
                if longer > 255 {
                    return None;
                }
                value = longer;
                next = chars.next();
                proof {
                    n = n + 1;
                }
            },
        }
    }
}

} // verus!
