//! Decimal numbers as texts: how they are read and how they are written.
use vstd::prelude::*;

use crate::strings;
use crate::strings::{char_in_class, chars_of, string_of, CharClass};

verus! {

/// The smaller of two counts.
pub open spec fn least(a: nat, b: nat) -> nat {
    if a <= b {
        a
    } else {
        b
    }
}

/// The difference, or zero.
pub open spec fn minus(a: nat, b: nat) -> nat {
    if a > b {
        (a - b) as nat
    } else {
        0
    }
}

pub open spec fn digit_char(d: int) -> char {
    (('0' as u32) + d) as char
}

pub open spec fn digit_value(c: char) -> int {
    (c as u32) - ('0' as u32)
}

/// The decimal digits of a number, without leading zeros.
pub open spec fn decimal(n: nat) -> Seq<char>
    decreases n,
{
    if n < 10 {
        seq![digit_char(n as int)]
    } else {
        decimal(n / 10).push(digit_char((n % 10) as int))
    }
}

/// The number that a run of decimal digits spells.
pub open spec fn digits_value(digits: Seq<char>) -> int
    decreases digits.len(),
{
    if digits.len() == 0 {
        0
    } else {
        digits_value(digits.drop_last()) * 10 + digit_value(digits.last())
    }
}

pub open spec fn all_digits(text: Seq<char>) -> bool {
    forall|i: int| 0 <= i < text.len() ==> strings::is_digit(#[trigger] text[i])
}

/// The number that a text spells as an optional sign and one or more digits.
pub open spec fn signed_value(text: Seq<char>) -> Option<int> {
    let signed = text.len() > 0 && (text[0] == '-' || text[0] == '+');
    let digits = if signed {
        text.skip(1)
    } else {
        text
    };
    if digits.len() == 0 || !all_digits(digits) {
        None
    } else if signed && text[0] == '-' {
        Some(-digits_value(digits))
    } else {
        Some(digits_value(digits))
    }
}

/// The 64-bit signed number that a text spells, if it spells one in range.
pub open spec fn i64_value(text: Seq<char>) -> Option<int> {
    match signed_value(text) {
        Some(value) => if i64::MIN <= value <= i64::MAX {
            Some(value)
        } else {
            None
        },
        None => None,
    }
}

/// The number up to `max` that a text spells without a minus sign.
pub open spec fn unsigned_value(text: Seq<char>, max: int) -> Option<int> {
    if text.len() > 0 && text[0] == '-' {
        None
    } else {
        match signed_value(text) {
            Some(value) => if value <= max {
                Some(value)
            } else {
                None
            },
            None => None,
        }
    }
}

/// `text` with zeros before it up to `width` characters.
pub open spec fn zero_padded(text: Seq<char>, width: int) -> Seq<char> {
    Seq::new(
        if width > text.len() {
            (width - text.len()) as nat
        } else {
            0
        },
        |i: int| '0',
    ) + text
}

/// The sign and decimal digits of a number; with a width, the digits are
/// preceded by zeros up to it.
pub open spec fn signed_decimal(n: int, width: Option<usize>) -> Seq<char> {
    let size = if n < 0 {
        -n
    } else {
        n
    };
    let digits = match width {
        Some(width) => zero_padded(decimal(size as nat), width as int),
        None => decimal(size as nat),
    };
    if n < 0 {
        seq!['-'] + digits
    } else {
        digits
    }
}

pub open spec fn ten_to(k: nat) -> nat
    decreases k,
{
    if k == 0 {
        1
    } else {
        10 * ten_to((k - 1) as nat)
    }
}

pub proof fn lemma_digits_value_bounds(digits: Seq<char>)
    requires
        all_digits(digits),
    ensures
        0 <= digits_value(digits) < ten_to(digits.len()),
    decreases digits.len(),
{
    if digits.len() > 0 {
        let rest = digits.drop_last();
        assert forall|i: int| 0 <= i < rest.len() implies strings::is_digit(#[trigger] rest[i]) by {
            assert(rest[i] == digits[i]);
        }
        lemma_digits_value_bounds(rest);
        assert(strings::is_digit(digits[digits.len() - 1]));
    }
}

/// A number without a sign is not negative, and within its bound.
pub proof fn lemma_unsigned_value_bounds(text: Seq<char>, max: int)
    ensures
        unsigned_value(text, max) matches Some(value) ==> 0 <= value <= max,
{
    let signed = text.len() > 0 && (text[0] == '-' || text[0] == '+');
    let digits = if signed {
        text.skip(1)
    } else {
        text
    };
    if all_digits(digits) {
        lemma_digits_value_bounds(digits);
    }
}

/// A number below a power of ten has no more digits than the power.
pub proof fn lemma_decimal_len(n: nat, k: nat)
    requires
        n < ten_to(k),
        k > 0,
    ensures
        1 <= decimal(n).len() <= k,
    decreases n,
{
    if n >= 10 {
        assert(ten_to(1) == 10) by {
            reveal_with_fuel(ten_to, 2);
        }
        assert(ten_to(k) == 10 * ten_to((k - 1) as nat));
        lemma_decimal_len(n / 10, (k - 1) as nat);
    }
}

/// Reading the digits of a number gives the number back.
pub proof fn lemma_decimal_reads_back(n: nat)
    ensures
        decimal(n).len() > 0,
        all_digits(decimal(n)),
        digits_value(decimal(n)) == n,
        signed_value(decimal(n)) == Some(n as int),
    decreases n,
{
    reveal_with_fuel(digits_value, 2);
    if n < 10 {
        assert(decimal(n).drop_last() =~= Seq::empty());
        assert(decimal(n).last() == digit_char(n as int));
    } else {
        lemma_decimal_reads_back(n / 10);
        let head = decimal(n / 10);
        assert(decimal(n).drop_last() =~= head);
        assert(decimal(n).last() == digit_char((n % 10) as int));
        assert forall|i: int| 0 <= i < decimal(n).len() implies strings::is_digit(
            #[trigger] decimal(n)[i],
        ) by {
            if i < head.len() {
                assert(decimal(n)[i] == head[i]);
            }
        }
    }
    assert(strings::is_digit(decimal(n)[0]));
}

pub fn decimal_chars(n: u64) -> (digits: Vec<char>)
    ensures
        digits@ == decimal(n as nat),
    decreases n,
{
    if n < 10 {
        let digit: u8 = n as u8;
        let digits: Vec<char> = vec![(48u8 + digit) as char];
        assert(digits@ =~= decimal(n as nat));
        digits
    } else {
        let mut digits = decimal_chars(n / 10);
        let digit: u8 = (n % 10) as u8;
        digits.push((48u8 + digit) as char);
        digits
    }
}

/// The decimal digits of a number.
pub fn decimal_text(n: u64) -> (text: String)
    ensures
        text@ == decimal(n as nat),
{
    string_of(&decimal_chars(n))
}

/// The decimal digits of a count.
pub fn count_text(n: usize) -> (text: String)
    ensures
        text@ == decimal(n as nat),
{
    decimal_text(n as u64)
}

/// The sign and digits of a number, with zeros up to a width.
pub fn signed_decimal_text(n: i64, width: Option<usize>) -> (text: String)
    ensures
        text@ == signed_decimal(n as int, width),
{
    let size: u64 = if n < 0 {
        (-(n as i128)) as u64
    } else {
        n as u64
    };
    let digits = decimal_text(size);
    let mut text = String::new();
    if n < 0 {
        text.push('-');
    }
    let ghost sign = text@;
    let len = decimal_chars(size).len();
    if let Some(width) = width {
        let mut pad: usize = len;
        while pad < width
            invariant
                len <= pad,
                pad <= width || pad == len,
                text@ == sign + Seq::new((pad - len) as nat, |i: int| '0'),
            decreases width - pad,
        {
            text.push('0');
            pad += 1;
            assert(text@ =~= sign + Seq::new((pad - len) as nat, |i: int| '0'));
        }
    }
    text.append(digits.as_str());
    assert(text@ =~= signed_decimal(n as int, width));
    text
}

/// The number that the digits from `from` on spell, or `None` if one is not a
/// digit or there is none; a number above `max` is given as `max + 1`.
fn read_digits(chars: &[char], from: usize, max: u64) -> (value: Option<u128>)
    requires
        from <= chars.len(),
    ensures
        ({
            let digits = chars@.skip(from as int);
            match value {
                Some(value) => {
                    &&& digits.len() > 0
                    &&& all_digits(digits)
                    &&& digits_value(digits) <= max ==> value == digits_value(digits)
                    &&& digits_value(digits) > max ==> value == max + 1
                },
                None => digits.len() == 0 || !all_digits(digits),
            }
        }),
{
    let ghost digits = chars@.skip(from as int);
    if from == chars.len() {
        return None;
    }
    let mut value: u128 = 0;
    let mut at: usize = from;
    while at < chars.len()
        invariant
            from <= at <= chars.len(),
            digits == chars@.skip(from as int),
            value <= max + 1,
            all_digits(digits.take(at - from)),
            0 <= digits_value(digits.take(at - from)),
            digits_value(digits.take(at - from)) <= max ==> value == digits_value(
                digits.take(at - from),
            ),
            digits_value(digits.take(at - from)) > max ==> value == max + 1,
        decreases chars.len() - at,
    {
        let c = chars[at];
        assert(digits[at - from] == c);
        if !char_in_class(CharClass::Digit, c) {
            return None;
        }
        let ghost before = digits.take(at - from);
        let ghost after = digits.take(at - from + 1);
        assert(after.drop_last() =~= before);
        assert(after.last() == c);
        assert forall|i: int| 0 <= i < after.len() implies strings::is_digit(
            #[trigger] after[i],
        ) by {
            if i < before.len() {
                assert(before[i] == after[i]);
            }
        }
        let digit: u128 = (c as u32 - 48) as u128;
        value = value * 10 + digit;
        if value > max as u128 {
            value = max as u128 + 1;
        }
        at += 1;
    }
    assert(digits.take(at - from) =~= digits);
    Some(value)
}

/// The 64-bit signed number that a text spells.
pub fn parse_i64(text: &str) -> (value: Option<i64>)
    ensures
        match value {
            Some(value) => i64_value(text@) == Some(value as int),
            None => i64_value(text@) is None,
        },
{
    let chars = chars_of(text);
    assert(text@.skip(0) =~= text@);
    let signed = chars.len() > 0 && (chars[0] == '-' || chars[0] == '+');
    let negative = signed && chars[0] == '-';
    let from: usize = if signed {
        1
    } else {
        0
    };
    match read_digits(&chars, from, 0x8000_0000_0000_0000u64) {
        None => None,
        Some(size) => if negative && size <= 0x8000_0000_0000_0000u128 {
            Some((-(size as i128)) as i64)
        } else if !negative && size < 0x8000_0000_0000_0000u128 {
            Some(size as i64)
        } else {
            None
        },
    }
}

/// The number up to `max` that a text spells.
fn parse_unsigned(text: &str, max: u64) -> (value: Option<u64>)
    ensures
        match value {
            Some(value) => unsigned_value(text@, max as int) == Some(value as int),
            None => unsigned_value(text@, max as int) is None,
        },
{
    let chars = chars_of(text);
    assert(text@.skip(0) =~= text@);
    if chars.len() > 0 && chars[0] == '-' {
        return None;
    }
    let from: usize = if chars.len() > 0 && chars[0] == '+' {
        1
    } else {
        0
    };
    match read_digits(&chars, from, max) {
        None => None,
        Some(size) => if size <= max as u128 {
            Some(size as u64)
        } else {
            None
        },
    }
}

/// The count that a text spells.
pub fn parse_usize(text: &str) -> (value: Option<usize>)
    ensures
        match value {
            Some(value) => unsigned_value(text@, usize::MAX as int) == Some(value as int),
            None => unsigned_value(text@, usize::MAX as int) is None,
        },
{
    match parse_unsigned(text, usize::MAX as u64) {
        Some(value) => Some(value as usize),
        None => None,
    }
}

/// The difference, or zero.
pub fn cut_off(a: usize, b: usize) -> (rest: usize)
    ensures
        rest == minus(a as nat, b as nat),
{
    if a > b {
        a - b
    } else {
        0
    }
}

/// The smaller of two counts.
pub fn smaller(a: usize, b: usize) -> (m: usize)
    ensures
        m == least(a as nat, b as nat),
{
    if a <= b {
        a
    } else {
        b
    }
}

/// The last digit of a number is what is left of it by ten, as a character from `0` on,
/// and the digits before it are those of its tenth.
pub proof fn digits_stand_by_place(n: nat)
    ensures
        decimal(n).len() > 0,
        decimal(n).last() as u32 == 48 + n % 10,
        n >= 10 ==> decimal(n).drop_last() == decimal(n / 10),
        n < 10 ==> decimal(n).len() == 1,
{
    let d = (n % 10) as int;
    assert(digit_char(d) as u32 == 48 + d);
    if n >= 10 {
        assert(decimal(n).drop_last() =~= decimal(n / 10));
    }
}

} // verus!
