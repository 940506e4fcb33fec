//! Decimal numbers.
use crate::names::chars_of;
use vstd::prelude::*;

verus! {

/// Whether a character is a decimal digit.
pub open spec fn is_digit(c: char) -> bool {
    '0' <= c <= '9'
}

/// Whether a text is made of digits only.
pub open spec fn all_digits(text: Seq<char>) -> bool {
    forall|i: int| 0 <= i < text.len() ==> is_digit(#[trigger] text[i])
}

/// The number that digits stand for.
pub open spec fn decimal(digits: Seq<char>) -> nat
    decreases digits.len(),
{
    if digits.len() == 0 {
        0
    } else {
        decimal(digits.drop_last()) * 10 + (digits.last() as nat - '0' as nat) as nat
    }
}

/// The number that a text stands for: digits, with a sign before them or
/// none.
pub open spec fn signed_decimal(text: Seq<char>) -> Option<int> {
    let digits = if text.len() > 0 && (text[0] == '-' || text[0] == '+') {
        text.skip(1)
    } else {
        text
    };
    if digits.len() == 0 || !all_digits(digits) {
        None
    } else if text[0] == '-' {
        Some(-decimal(digits))
    } else {
        Some(decimal(digits) as int)
    }
}

/// The number of a text, if it is one and fits.
pub open spec fn parsed_i64(text: Seq<char>) -> Option<i64> {
    match signed_decimal(text) {
        Some(value) => if i64::MIN <= value <= i64::MAX {
            Some(value as i64)
        } else {
            None
        },
        None => None,
    }
}

/// The number of a text without a minus sign, if it is one and fits.
pub open spec fn parsed_u64(text: Seq<char>) -> Option<u64> {
    match signed_decimal(text) {
        Some(value) => if text[0] != '-' && value <= u64::MAX {
            Some(value as u64)
        } else {
            None
        },
        None => None,
    }
}

/// More digits make no smaller number.
proof fn lemma_decimal_grows(digits: Seq<char>, count: int)
    requires
        0 <= count <= digits.len(),
    ensures
        decimal(digits.take(count)) <= decimal(digits),
    decreases digits.len(),
{
    if count == digits.len() {
        assert(digits.take(count) =~= digits);
    } else {
        assert(digits.drop_last().take(count) =~= digits.take(count));
        lemma_decimal_grows(digits.drop_last(), count);
    }
}

/// Reads the digits from position `start` to the end of a text.
fn parse_digits(chars: &Vec<char>, start: usize) -> (value: Option<u64>)
    requires
        start <= chars@.len(),
    ensures
        ({
            let digits = chars@.skip(start as int);
            value == if digits.len() > 0 && all_digits(digits) && decimal(digits) <= u64::MAX {
                Some(decimal(digits) as u64)
            } else {
                None
            }
        }),
{
    if start == chars.len() {
        return None;
    }
    let ghost digits = chars@.skip(start as int);
    let mut value: u64 = 0;
    let mut i: usize = start;
    while i < chars.len()
        invariant
            start <= i <= chars@.len(),
            digits == chars@.skip(start as int),
            all_digits(digits.take(i - start)),
            value == decimal(digits.take(i - start)),
        decreases chars@.len() - i,
    {
        let c: char = chars[i];
        let ghost now = digits.take(i - start + 1);
        proof {
            assert(c == digits[i - start]);
            assert(now.drop_last() =~= digits.take(i - start));
            assert(now.last() == c);
            lemma_decimal_grows(digits, i - start + 1);
        }
        if c < '0' || c > '9' {
            assert(!is_digit(digits[i - start]));
            return None;
        }
        let digit: u64 = c as u64 - '0' as u64;
        let tenfold: u64 = match value.checked_mul(10) {
            Some(tenfold) => tenfold,
            None => return None,
        };
        value = match tenfold.checked_add(digit) {
            Some(value) => value,
            None => return None,
        };
        assert forall|k: int| 0 <= k < now.len() implies is_digit(#[trigger] now[k]) by {
            if k < now.len() - 1 {
                assert(digits.take(i - start)[k] == now[k]);
            }
        }
        i = i + 1;
    }
    assert(digits.take(i - start) =~= digits);
    Some(value)
}

/// Reads a number with an optional sign.
pub fn parse_i64(text: &str) -> (value: Option<i64>)
    ensures
        value == parsed_i64(text@),
{
    let chars = chars_of(text);
    if chars.len() == 0 {
        return None;
    }
    assert(chars@.skip(0) =~= chars@);
    if chars[0] == '-' {
        match parse_digits(&chars, 1) {
            Some(magnitude) => if magnitude <= i64::MAX as u64 {
                Some(-(magnitude as i64))
            } else if magnitude == 0x8000_0000_0000_0000 {
                Some(i64::MIN)
            } else {
                None
            },
            None => None,
        }
    } else {
        let start: usize = if chars[0] == '+' {
            1
        } else {
            0
        };
        match parse_digits(&chars, start) {
            Some(magnitude) => if magnitude <= i64::MAX as u64 {
                Some(magnitude as i64)
            } else {
                None
            },
            None => None,
        }
    }
}

/// Reads a number that is not negative, with an optional plus sign.
pub fn parse_u64(text: &str) -> (value: Option<u64>)
    ensures
        value == parsed_u64(text@),
{
    let chars = chars_of(text);
    if chars.len() == 0 {
        return None;
    }
    assert(chars@.skip(0) =~= chars@);
    let start: usize = if chars[0] == '+' {
        1
    } else {
        0
    };
    let value: Option<u64> = parse_digits(&chars, start);
    assert(chars@[0] == '-' ==> value is None) by {
        if chars@[0] == '-' {
            assert(!is_digit(chars@.skip(0)[0]));
        }
    }
    value
}

/// Whether a text is made of digits only.
pub fn is_all_digits(text: &str) -> (result: bool)
    ensures
        result == all_digits(text@),
{
    let chars = chars_of(text);
    for i in 0..chars.len()
        invariant
            chars@ == text@,
            forall|k: int| 0 <= k < i ==> is_digit(#[trigger] text@[k]),
    {
        if chars[i] < '0' || chars[i] > '9' {
            assert(!is_digit(text@[i as int]));
            return false;
        }
    }
    true
}

} // verus!
