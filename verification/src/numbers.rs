//! Whole numbers written in decimal digits.

use crate::grid::chars_of;
use crate::text::push_char;
use crate::trails::{char_to_digit, digit_char, digit_to_char, digit_value};
use vstd::prelude::*;

verus! {

/// Every character of `text` is a decimal digit.
pub open spec fn all_decimal(text: Seq<char>) -> bool {
    forall|i: int| 0 <= i < text.len() ==> digit_value(#[trigger] text[i]) is Some
}

/// The number that the decimal digits of `text` stand for.
pub open spec fn digits_value(text: Seq<char>) -> int
    decreases text.len(),
{
    if text.len() == 0 {
        0
    } else {
        digits_value(text.drop_last()) * 10 + digit_value(text.last())->0
    }
}

/// The number that `text` stands for: decimal digits, at least one, with a
/// plus or minus sign before them or none. Any other text stands for no number.
pub open spec fn number_value(text: Seq<char>) -> Option<int> {
    if text.len() >= 1 && (text[0] == '+' || text[0] == '-') {
        let digits = text.drop_first();
        if digits.len() >= 1 && all_decimal(digits) {
            Some(if text[0] == '-' {
                -digits_value(digits)
            } else {
                digits_value(digits)
            })
        } else {
            None
        }
    } else if text.len() >= 1 && all_decimal(text) {
        Some(digits_value(text))
    } else {
        None
    }
}

/// The number that `text` stands for, where it fits in an `i64`.
pub open spec fn i64_value(text: Seq<char>) -> Option<i64> {
    match number_value(text) {
        Some(v) => if i64::MIN <= v <= i64::MAX {
            Some(v as i64)
        } else {
            None
        },
        None => None,
    }
}

/// The number that `text` stands for, where it fits in an `i32`.
pub open spec fn i32_value(text: Seq<char>) -> Option<i32> {
    match number_value(text) {
        Some(v) => if i32::MIN <= v <= i32::MAX {
            Some(v as i32)
        } else {
            None
        },
        None => None,
    }
}

/// More digits make no smaller number.
pub proof fn lemma_digits_value_grows(text: Seq<char>, n: int)
    requires
        all_decimal(text),
        0 <= n <= text.len(),
    ensures
        0 <= digits_value(text.take(n)) <= digits_value(text),
    decreases text.len() - n,
{
    if n == text.len() {
        assert(text.take(n) =~= text);
        lemma_digits_value_nonnegative(text);
    } else {
        lemma_digits_value_grows(text, n + 1);
        let longer = text.take(n + 1);
        assert(longer.drop_last() =~= text.take(n));
        assert(digit_value(longer.last()) is Some);
        lemma_digits_value_nonnegative(text.take(n));
    }
}

/// Decimal digits stand for no negative number.
pub proof fn lemma_digits_value_nonnegative(text: Seq<char>)
    requires
        all_decimal(text),
    ensures
        0 <= digits_value(text),
    decreases text.len(),
{
    if text.len() > 0 {
        assert forall|i: int| 0 <= i < text.drop_last().len() implies digit_value(
            #[trigger] text.drop_last()[i],
        ) is Some by {
            assert(text.drop_last()[i] == text[i]);
        }
        lemma_digits_value_nonnegative(text.drop_last());
        assert(digit_value(text.last()) is Some);
    }
}

/// Reads a whole number: decimal digits with a sign before them or none.
/// `None` where the text is no such number or the number does not fit.
pub fn parse_i64(text: &str) -> (value: Option<i64>)
    ensures
        value == i64_value(text@),
{
    let chars = chars_of(text);
    let n = chars.len();
    if n == 0 {
        return None;
    }
    let negative = chars[0] == '-';
    let start: usize = if chars[0] == '+' || chars[0] == '-' {
        1
    } else {
        0
    };
    if start == n {
        assert(chars@.drop_first().len() == 0);
        return None;
    }
    let ghost digits = chars@.skip(start as int);
    proof {
        if start == 1 {
            assert(digits =~= chars@.drop_first());
        } else {
            assert(digits =~= chars@);
            assert(digit_value('+') is None && digit_value('-') is None);
        }
    }
    let mut acc: i128 = 0;
    let mut i: usize = start;
    let mut too_large = false;
    while i < n
        invariant
            start <= i <= n,
            n == chars.len(),
            n >= 1,
            chars@ == text@,
            start == 1 ==> (chars@[0] == '+' || chars@[0] == '-') && digits == chars@.drop_first(),
            start == 0 ==> chars@[0] != '+' && chars@[0] != '-' && digits == chars@,
            start <= 1,
            negative == (chars@[0] == '-'),
            digits == chars@.skip(start as int),
            all_decimal(digits.take(i - start)),
            !too_large ==> acc == digits_value(digits.take(i - start)),
            !too_large ==> 0 <= acc <= 0x8000_0000_0000_0000,
            too_large ==> digits_value(digits.take(i - start)) > 0x8000_0000_0000_0000,
        decreases n - i,
    {
        let ghost before = digits.take(i - start);
        let ghost after = digits.take(i - start + 1);
        proof {
            assert(after.drop_last() =~= before);
            assert(after.last() == chars@[i as int]);
        }
        match char_to_digit(chars[i]) {
            Some(d) => {
                proof {
                    assert forall|k: int| 0 <= k < after.len() implies digit_value(#[trigger] after[k]) is Some by {
                        if k < before.len() {
                            assert(after[k] == before[k]);
                        }
                    }
                }
                proof {
                    lemma_digits_value_nonnegative(before);
                }
                if !too_large {
                    acc = acc * 10 + d as i128;
                    if acc > 0x8000_0000_0000_0000 {
                        too_large = true;
                    }
                }
            },
            None => {
                proof {
                    assert(digit_value(digits[i - start]) is None);
                    assert(!all_decimal(digits));
                }
                return None;
            },
        }
        i += 1;
    }
    proof {
        assert(digits.take(n - start) =~= digits);
        assert(digits.len() >= 1);
    }
    if too_large {
        return None;
    }
    if negative {
        Some((-acc) as i64)
    } else if acc > 0x7fff_ffff_ffff_ffff {
        None
    } else {
        Some(acc as i64)
    }
}

/// Reads a whole number that fits in an `i32`.
pub fn parse_i32(text: &str) -> (value: Option<i32>)
    ensures
        value == i32_value(text@),
{
    match parse_i64(text) {
        Some(v) => if v >= -0x8000_0000 && v <= 0x7fff_ffff {
            Some(v as i32)
        } else {
            None
        },
        None => None,
    }
}

/// The decimal digits of `n`, without leading zeros.
pub open spec fn decimal_digits(n: nat) -> Seq<char>
    decreases n,
{
    if n < 10 {
        seq![digit_char(n as int)]
    } else {
        decimal_digits(n / 10).push(digit_char((n % 10) as int))
    }
}

/// The decimal digits of a number are digits, and stand for the number.
pub proof fn lemma_decimal_digits(n: nat)
    ensures
        decimal_digits(n).len() >= 1,
        all_decimal(decimal_digits(n)),
        digits_value(decimal_digits(n)) == n,
        number_value(decimal_digits(n)) == Some(n as int),
    decreases n,
{
    let text = decimal_digits(n);
    if n < 10 {
        assert(text.drop_last() =~= Seq::<char>::empty());
        assert(digits_value(text.drop_last()) == 0);
        assert(digit_value(digit_char(n as int)) == Some(n as int));
    } else {
        lemma_decimal_digits(n / 10);
        let before = decimal_digits(n / 10);
        assert(text.drop_last() =~= before);
        assert(digit_value(digit_char((n % 10) as int)) == Some((n % 10) as int));
        assert forall|i: int| 0 <= i < text.len() implies digit_value(#[trigger] text[i]) is Some by {
            if i < before.len() {
                assert(text[i] == before[i]);
            }
        }
    }
    assert(digit_value('+') is None && digit_value('-') is None);
}

/// Writes `n` in decimal digits at the end of `text`.
pub fn push_decimal(text: &mut String, n: usize)
    ensures
        final(text)@ == old(text)@ + decimal_digits(n as nat),
    decreases n,
{
    if n >= 10 {
        push_decimal(text, n / 10);
    }
    push_char(text, digit_to_char((n % 10) as u8));
    proof {
        if n < 10 {
            assert(text@ =~= old(text)@ + decimal_digits(n as nat));
        } else {
            assert(text@ =~= old(text)@ + decimal_digits(n as nat));
        }
    }
}

} // verus!
