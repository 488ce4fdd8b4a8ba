//! What numbers and texts are, by their characters: the places of a numeral,
//! the sign before it, and the case of a letter.

use vstd::arithmetic::power::{lemma_pow0, pow};
use vstd::prelude::*;
use vstd::utf8::{decode_utf8_encode_utf8, encode_utf8, valid_utf8};

use crate::decimal::{
    decimal, digits_value, lemma_decimal, parse_i64, parse_unsigned, signed_decimal,
};
use crate::text::{lossy, replaced_utf8, same_but_case, upper};

verus! {

/// A digit stands for its distance from `0`, and no digit at all for nothing.
pub proof fn law_digit_stands_for_itself(c: char)
    requires
        48 <= c as int <= 57,
    ensures
        digits_value(seq![c]) == c as int - 48,
        digits_value(Seq::empty()) == 0,
{
    assert(seq![c].drop_last() =~= Seq::<char>::empty());
    assert(digits_value(seq![c].drop_last()) == 0);
}

/// Each place of a numeral weighs ten times the next.
pub proof fn law_places_weigh_ten(a: Seq<char>, b: Seq<char>)
    ensures
        digits_value(a + b) == digits_value(a) * pow(10, b.len()) + digits_value(b),
    decreases b.len(),
{
    reveal(pow);
    if b.len() == 0 {
        assert(a + b =~= a);
        lemma_pow0(10);
        assert(digits_value(a) * 1 == digits_value(a));
    } else {
        let front = b.drop_last();
        law_places_weigh_ten(a, front);
        assert((a + b).drop_last() =~= a + front);
        let v = digits_value(a) as int;
        let p = pow(10, front.len());
        assert(10 * (v * p) == v * (10 * p)) by (nonlinear_arith);
        assert(pow(10, b.len()) == 10 * p);
    }
}

/// A number is written in digits that stand for it, without a zero before them.
pub proof fn law_decimal_is_written_short(n: nat)
    ensures
        decimal(n).len() > 0,
        forall|i: int| 0 <= i < decimal(n).len() ==> 48 <= (#[trigger] decimal(n)[i]) as int <= 57,
        digits_value(decimal(n)) == n,
        decimal(n).len() > 1 ==> decimal(n)[0] != '0',
    decreases n,
{
    lemma_decimal(n);
    if n >= 10 {
        law_decimal_is_written_short(n / 10);
        assert(decimal(n)[0] == decimal(n / 10)[0]);
        if n / 10 >= 10 {
            lemma_decimal(n / 10 / 10);
            assert(decimal(n / 10).len() > 1);
        } else {
            assert(decimal(n / 10)[0] as int == 48 + n / 10);
        }
    }
}

/// Digits that do not start with a zero stand for something.
proof fn lemma_value_positive(digits: Seq<char>)
    requires
        digits.len() > 0,
        forall|i: int| 0 <= i < digits.len() ==> 48 <= (#[trigger] digits[i]) as int <= 57,
        digits[0] != '0',
    ensures
        digits_value(digits) > 0,
    decreases digits.len(),
{
    if digits.len() > 1 {
        let front = digits.drop_last();
        assert forall|i: int| 0 <= i < front.len() implies 48 <= (#[trigger] front[i]) as int
            <= 57 by {
            assert(front[i] == digits[i]);
        }
        lemma_value_positive(front);
    } else {
        assert(digits.drop_last() =~= Seq::<char>::empty());
        assert(digits_value(digits.drop_last()) == 0);
    }
}

/// Digits without a zero before them are how the number that they stand for is
/// written.
pub proof fn law_one_numeral_for_a_number(digits: Seq<char>)
    requires
        digits.len() > 0,
        forall|i: int| 0 <= i < digits.len() ==> 48 <= (#[trigger] digits[i]) as int <= 57,
        digits.len() > 1 ==> digits[0] != '0',
    ensures
        decimal(digits_value(digits)) == digits,
    decreases digits.len(),
{
    let front = digits.drop_last();
    if digits.len() == 1 {
        assert(front =~= Seq::<char>::empty());
        assert(digits_value(front) == 0);
        assert(decimal(digits_value(digits)) =~= digits);
    } else {
        assert forall|i: int| 0 <= i < front.len() implies 48 <= (#[trigger] front[i]) as int
            <= 57 by {
            assert(front[i] == digits[i]);
        }
        lemma_value_positive(front);
        law_one_numeral_for_a_number(front);
        assert(decimal(digits_value(digits)) =~= digits);
    }
}

/// A negative number is written with a minus sign before it, and no other with
/// a sign.
pub proof fn law_sign_is_written(n: nat)
    ensures
        signed_decimal(n as int) == decimal(n),
        n > 0 ==> signed_decimal(-(n as int)) == seq!['-'] + decimal(n),
{
}

/// Digits, with a plus sign before them or without, are read as the number that
/// they stand for, where that is within the limit.
pub proof fn law_digits_are_read(digits: Seq<char>, max: nat)
    requires
        digits.len() > 0,
        forall|i: int| 0 <= i < digits.len() ==> 48 <= (#[trigger] digits[i]) as int <= 57,
    ensures
        ({
            let expected = if digits_value(digits) <= max {
                Some(digits_value(digits))
            } else {
                None
            };
            &&& parse_unsigned(digits, max) == expected
            &&& parse_unsigned(seq!['+'] + digits, max) == expected
        }),
{
    assert((seq!['+'] + digits).skip(1) =~= digits);
    assert(48 <= digits[0] as int);
}

/// Nothing, a sign alone, and a text with anything but a digit in it, other than
/// a plus sign before it, is not a number.
pub proof fn law_no_number_without_digits(text: Seq<char>, max: nat, i: int)
    ensures
        text.len() == 0 ==> parse_unsigned(text, max) is None,
        text == seq!['+'] ==> parse_unsigned(text, max) is None,
        0 <= i < text.len() && !(48 <= text[i] as int <= 57) && (i > 0 || text[0] != '+')
            ==> parse_unsigned(text, max) is None,
{
    if text.len() > 0 && text[0] == '+' {
        if 0 < i < text.len() {
            assert(text.skip(1)[i - 1] == text[i]);
        }
    }
}

/// Digits, with a sign before them or without, are read as the signed number
/// that they stand for, where 64 bits hold it.
pub proof fn law_signed_digits_are_read(digits: Seq<char>)
    requires
        digits.len() > 0,
        forall|i: int| 0 <= i < digits.len() ==> 48 <= (#[trigger] digits[i]) as int <= 57,
    ensures
        ({
            let value = digits_value(digits);
            let plain = if value <= 0x7fff_ffff_ffff_ffff {
                Some(value as i64)
            } else {
                None
            };
            &&& parse_i64(digits) == plain
            &&& parse_i64(seq!['+'] + digits) == plain
            &&& parse_i64(seq!['-'] + digits) == if value <= 0x8000_0000_0000_0000 {
                Some((-(value as int)) as i64)
            } else {
                None
            }
        }),
{
    law_digits_are_read(digits, i64::MAX as nat);
    assert((seq!['-'] + digits).skip(1) =~= digits);
    assert(48 <= digits[0] as int);
}

/// Nothing, a sign alone, and a text with anything but a digit in it, other than
/// a sign before it, is not a signed number.
pub proof fn law_no_signed_number_without_digits(text: Seq<char>, i: int)
    ensures
        text.len() == 0 ==> parse_i64(text) is None,
        text == seq!['+'] || text == seq!['-'] ==> parse_i64(text) is None,
        0 <= i < text.len() && !(48 <= text[i] as int <= 57) && (i > 0 || (text[0] != '+' && text[0]
            != '-')) ==> parse_i64(text) is None,
{
    law_no_number_without_digits(text, i64::MAX as nat, i);
    if text.len() > 0 && text[0] == '-' {
        if 0 < i < text.len() {
            assert(text.skip(1)[i - 1] == text[i]);
        }
    }
}

/// Bytes that are UTF-8 are read as the text whose bytes they are.
pub proof fn law_utf8_is_read_as_it_is(bytes: Seq<u8>)
    ensures
        valid_utf8(bytes) ==> encode_utf8(lossy(bytes)) == bytes,
        !valid_utf8(bytes) ==> lossy(bytes) == replaced_utf8(bytes),
{
    if valid_utf8(bytes) {
        decode_utf8_encode_utf8(bytes);
    }
}

/// In upper case the letters `a` to `z` stand 32 lower, and every other
/// character stays.
pub proof fn law_upper_case_moves_letters(text: Seq<char>, i: int)
    requires
        0 <= i < text.len(),
    ensures
        upper(text).len() == text.len(),
        97 <= text[i] as int <= 122 ==> upper(text)[i] as int == text[i] as int - 32,
        !(97 <= text[i] as int <= 122) ==> upper(text)[i] == text[i],
{
}

/// Texts are the same but for case where they are as long, and place by place
/// hold the same character, or the two forms of one letter from A to Z.
pub proof fn law_case_is_all_that_differs(a: Seq<char>, b: Seq<char>)
    ensures
        same_but_case(a, b) <==> a.len() == b.len() && forall|i: int|
            0 <= i < a.len() ==> {
                ||| #[trigger] a[i] == b[i]
                ||| 97 <= a[i] as int <= 122 && b[i] as int == a[i] as int - 32
                ||| 97 <= b[i] as int <= 122 && a[i] as int == b[i] as int - 32
            },
{
    if same_but_case(a, b) {
        assert(upper(a).len() == upper(b).len());
        assert forall|i: int| 0 <= i < a.len() implies {
            ||| #[trigger] a[i] == b[i]
            ||| 97 <= a[i] as int <= 122 && b[i] as int == a[i] as int - 32
            ||| 97 <= b[i] as int <= 122 && a[i] as int == b[i] as int - 32
        } by {
            assert(upper(a)[i] == upper(b)[i]);
        }
    } else if a.len() == b.len() {
        if forall|i: int|
            0 <= i < a.len() ==> {
                ||| #[trigger] a[i] == b[i]
                ||| 97 <= a[i] as int <= 122 && b[i] as int == a[i] as int - 32
                ||| 97 <= b[i] as int <= 122 && a[i] as int == b[i] as int - 32
            } {
            assert forall|i: int| 0 <= i < a.len() implies upper(a)[i] == upper(b)[i] by {
                assert(a[i] == a[i]);
            }
            assert(upper(a) =~= upper(b));
        }
    }
}

} // verus!
