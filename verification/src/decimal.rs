//! Decimal numbers: how they are written, and which texts are read as one.

use vstd::prelude::*;

use crate::text::chars_of;

verus! {

/// Whether `c` is one of the ten decimal digits.
pub open spec fn is_digit(c: char) -> bool {
    '0' <= c <= '9'
}

/// Whether `text` is one digit or more, and nothing else.
pub open spec fn is_digits(text: Seq<char>) -> bool {
    text.len() > 0 && forall|i: int| 0 <= i < text.len() ==> is_digit(#[trigger] text[i])
}

/// The number that a row of digits stands for.
pub open spec fn digits_value(digits: Seq<char>) -> nat
    decreases digits.len(),
{
    if digits.len() == 0 {
        0
    } else {
        10 * digits_value(digits.drop_last()) + ((digits.last() as int - '0' as int) as nat)
    }
}

/// The digit that stands for `d`.
pub open spec fn digit(d: nat) -> char {
    ('0' as int + d) as char
}

/// A number in decimal, without leading zeros.
pub open spec fn decimal(n: nat) -> Seq<char>
    decreases n,
{
    if n < 10 {
        seq![digit(n)]
    } else {
        decimal(n / 10).push(digit(n % 10))
    }
}

/// An integer in decimal, with a minus sign where it is negative.
pub open spec fn signed_decimal(n: int) -> Seq<char> {
    if n < 0 {
        seq!['-'] + decimal((-n) as nat)
    } else {
        decimal(n as nat)
    }
}

/// The number that `text` is read as: digits, with or without a plus sign
/// before them, that stand for no more than `max`.
pub open spec fn parse_unsigned(text: Seq<char>, max: nat) -> Option<nat> {
    let digits = if text.len() > 0 && text[0] == '+' {
        text.skip(1)
    } else {
        text
    };
    if is_digits(digits) && digits_value(digits) <= max {
        Some(digits_value(digits))
    } else {
        None
    }
}

/// The signed number that `text` is read as: digits, with or without a sign
/// before them, that stand for a number of 64 bits.
pub open spec fn parse_i64(text: Seq<char>) -> Option<i64> {
    if text.len() > 0 && text[0] == '-' {
        let digits = text.skip(1);
        if is_digits(digits) && digits_value(digits) <= -(i64::MIN as int) {
            Some((-(digits_value(digits) as int)) as i64)
        } else {
            None
        }
    } else {
        match parse_unsigned(text, i64::MAX as nat) {
            Some(n) => Some(n as i64),
            None => None,
        }
    }
}

/// A row of digits stands for at least what any row it starts with stands for.
proof fn lemma_value_monotone(digits: Seq<char>, k: int)
    requires
        0 <= k <= digits.len(),
    ensures
        digits_value(digits.take(k)) <= digits_value(digits),
    decreases digits.len() - k,
{
    if k < digits.len() {
        lemma_value_monotone(digits, k + 1);
        assert(digits.take(k + 1).drop_last() =~= digits.take(k));
    } else {
        assert(digits.take(k) =~= digits);
    }
}

/// What `decimal` writes is digits, and stands for the number written.
pub proof fn lemma_decimal(n: nat)
    ensures
        is_digits(decimal(n)),
        digits_value(decimal(n)) == n,
    decreases n,
{
    if n < 10 {
        let d = decimal(n);
        assert(d.drop_last() =~= Seq::<char>::empty());
        assert(digits_value(d.drop_last()) == 0);
    } else {
        lemma_decimal(n / 10);
        assert(decimal(n).drop_last() =~= decimal(n / 10));
    }
}

/// A number that is written and read back is the same number.
pub proof fn lemma_unsigned_round_trip(n: nat, max: nat)
    requires
        n <= max,
    ensures
        parse_unsigned(decimal(n), max) == Some(n),
{
    lemma_decimal(n);
    assert(is_digit(decimal(n)[0]));
}

/// A signed number that is written and read back is the same number.
pub proof fn lemma_signed_round_trip(n: i64)
    ensures
        parse_i64(signed_decimal(n as int)) == Some(n),
{
    if n < 0 {
        let text = signed_decimal(n as int);
        lemma_decimal((-(n as int)) as nat);
        assert(text.skip(1) =~= decimal((-(n as int)) as nat));
    } else {
        lemma_unsigned_round_trip(n as nat, i64::MAX as nat);
        lemma_decimal(n as nat);
        assert(is_digit(decimal(n as nat)[0]));
    }
}

/// Appends `n` in decimal to `out`.
pub(crate) fn push_decimal(out: &mut String, n: u64)
    ensures
        final(out)@ == old(out)@ + decimal(n as nat),
    decreases n,
{
    let ghost before = out@;
    if n >= 10 {
        push_decimal(out, n / 10);
    }
    let d: u8 = (n % 10) as u8;
    out.push((48 + d) as char);
    assert(out@ =~= before + decimal(n as nat));
}

/// `n` in decimal.
pub(crate) fn decimal_text(n: u64) -> (text: String)
    ensures
        text@ == decimal(n as nat),
{
    let mut text = String::new();
    push_decimal(&mut text, n);
    assert(text@ =~= decimal(n as nat));
    text
}

/// `n` in decimal, with a minus sign where it is negative.
pub(crate) fn signed_decimal_text(n: i64) -> (text: String)
    ensures
        text@ == signed_decimal(n as int),
{
    let mut text = String::new();
    if n < 0 {
        text.push('-');
        let magnitude: u64 = (-(n as i128)) as u64;
        push_decimal(&mut text, magnitude);
        assert(text@ =~= signed_decimal(n as int));
    } else {
        push_decimal(&mut text, n as u64);
        assert(text@ =~= signed_decimal(n as int));
    }
    text
}

/// The number that the characters from `from` on stand for, where they are
/// digits and stand for no more than `max`.
fn read_digits(text: &[char], from: usize, max: u64) -> (number: Option<u64>)
    requires
        from <= text@.len(),
    ensures
        number == (if is_digits(text@.skip(from as int)) && digits_value(text@.skip(from as int))
            <= max {
            Some(digits_value(text@.skip(from as int)) as u64)
        } else {
            None
        }),
{
    let ghost digits = text@.skip(from as int);
    if from == text.len() {
        return None;
    }
    let mut value: u64 = 0;
    let mut at: usize = from;
    while at < text.len()
        invariant
            from <= at <= text@.len(),
            digits == text@.skip(from as int),
            forall|i: int| 0 <= i < at - from ==> is_digit(#[trigger] digits[i]),
            value == digits_value(digits.take(at - from)),
            value <= max,
        decreases text@.len() - at,
    {
        let c = text[at];
        assert(digits[at - from] == c);
        if !('0' <= c && c <= '9') {
            return None;
        }
        let d: u64 = (c as u64) - 48;
        proof {
            let next = digits.take(at + 1 - from);
            assert(next.drop_last() =~= digits.take(at - from));
            assert(next.last() == c);
            assert(digits_value(next) == 10 * value + d);
            lemma_value_monotone(digits, at + 1 - from);
        }
        if value > (u64::MAX - d) / 10 {
            return None;
        }
        value = 10 * value + d;
        if value > max {
            return None;
        }
        at = at + 1;
    }
    assert(digits.take(at - from) =~= digits);
    Some(value)
}

/// The number that `text` is read as, where it is one up to `max`.
pub(crate) fn read_unsigned(text: &[char], max: u64) -> (number: Option<u64>)
    ensures
        number == (match parse_unsigned(text@, max as nat) {
            Some(n) => Some(n as u64),
            None => None,
        }),
{
    let from: usize = if text.len() > 0 && text[0] == '+' {
        1
    } else {
        0
    };
    assert(text@.skip(0) =~= text@);
    read_digits(text, from, max)
}

/// The signed number that `text` is read as, where it is one.
pub(crate) fn read_i64(text: &str) -> (number: Option<i64>)
    ensures
        number == parse_i64(text@),
{
    let chars = chars_of(text);
    if chars.len() > 0 && chars[0] == '-' {
        match read_digits(chars.as_slice(), 1, 0x8000_0000_0000_0000) {
            Some(n) => Some((-(n as i128)) as i64),
            None => None,
        }
    } else {
        match read_unsigned(chars.as_slice(), 0x7fff_ffff_ffff_ffff) {
            Some(n) => Some(n as i64),
            None => None,
        }
    }
}

} // verus!
