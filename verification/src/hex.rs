//! Hexadecimal: two digits for each byte.
use vstd::prelude::*;

use crate::strings::string_of;

verus! {

pub open spec fn hex_digit(n: int) -> char {
    if n < 10 {
        ('0' as int + n) as char
    } else {
        ('a' as int + n - 10) as char
    }
}

pub open spec fn hex_value(c: char) -> Option<int> {
    if '0' <= c <= '9' {
        Some(c as int - '0' as int)
    } else if 'a' <= c <= 'f' {
        Some(c as int - 'a' as int + 10)
    } else if 'A' <= c <= 'F' {
        Some(c as int - 'A' as int + 10)
    } else {
        None
    }
}

/// The digits of bytes, in lower case.
pub open spec fn hex_digits(bytes: Seq<u8>) -> Seq<char>
    decreases bytes.len(),
{
    if bytes.len() == 0 {
        Seq::empty()
    } else {
        hex_digits(bytes.drop_last()) + seq![
            hex_digit(bytes.last() as int / 16),
            hex_digit(bytes.last() as int % 16),
        ]
    }
}

/// The bytes that pairs of digits spell.
pub open spec fn hex_bytes(digits: Seq<char>) -> Option<Seq<u8>>
    decreases digits.len(),
{
    if digits.len() == 0 {
        Some(Seq::empty())
    } else if digits.len() == 1 {
        None
    } else {
        let n = digits.len() as int;
        match (hex_bytes(digits.take(n - 2)), hex_value(digits[n - 2]), hex_value(digits[n - 1])) {
            (Some(bytes), Some(high), Some(low)) => Some(bytes.push((high * 16 + low) as u8)),
            _ => None,
        }
    }
}

/// The digits of bytes spell the bytes, and are hexadecimal digits throughout.
pub proof fn hex_reads_back(bytes: Seq<u8>)
    ensures
        hex_bytes(hex_digits(bytes)) == Some(bytes),
        hex_digits(bytes).len() == 2 * bytes.len(),
        forall|i: int|
            0 <= i < hex_digits(bytes).len() ==> hex_value(#[trigger] hex_digits(bytes)[i]) is Some,
    decreases bytes.len(),
{
    if bytes.len() > 0 {
        let fewer = bytes.drop_last();
        hex_reads_back(fewer);
        let digits = hex_digits(bytes);
        let n = digits.len() as int;
        assert(digits.take(n - 2) =~= hex_digits(fewer));
        let high = bytes.last() as int / 16;
        let low = bytes.last() as int % 16;
        assert(hex_value(hex_digit(high)) == Some(high));
        assert(hex_value(hex_digit(low)) == Some(low));
        assert(fewer.push((high * 16 + low) as u8) =~= bytes);
        assert forall|i: int| 0 <= i < n implies hex_value(#[trigger] digits[i]) is Some by {
            if i < n - 2 {
                assert(digits[i] == hex_digits(fewer)[i]);
            }
        }
    } else {
        assert(bytes =~= Seq::empty());
    }
}

fn digit_of(n: u8) -> (c: char)
    requires
        n < 16,
    ensures
        c == hex_digit(n as int),
{
    if n < 10 {
        (0x30 + n) as char
    } else {
        (0x61 + (n - 10)) as char
    }
}

/// The digits of bytes, in lower case.
pub fn hex_text(bytes: &[u8]) -> (text: String)
    ensures
        text@ == hex_digits(bytes@),
{
    let mut digits: Vec<char> = Vec::new();
    let mut i: usize = 0;
    while i < bytes.len()
        invariant
            i <= bytes.len(),
            digits@ == hex_digits(bytes@.take(i as int)),
        decreases bytes.len() - i,
    {
        let ghost before = digits@;
        digits.push(digit_of(bytes[i] / 16));
        digits.push(digit_of(bytes[i] % 16));
        assert(bytes@.take(i + 1).drop_last() =~= bytes@.take(i as int));
        assert(digits@ =~= hex_digits(bytes@.take(i + 1)));
        i += 1;
    }
    assert(bytes@.take(i as int) =~= bytes@);
    string_of(&digits)
}

/// A byte is written as the digits of its sixteenth and of what is left of it, the
/// digits being `0` to `9` and then `a` to `f`; bytes follow each other.
pub proof fn bytes_are_written_by_place(bytes: Seq<u8>, byte: u8)
    ensures
        hex_digits(bytes.push(byte)) == hex_digits(bytes) + seq![
            hex_digit(byte as int / 16),
            hex_digit(byte as int % 16),
        ],
        forall|n: int|
            0 <= n < 10 ==> (#[trigger] hex_digit(n)) as u32 == 48 + n,
        forall|n: int|
            10 <= n < 16 ==> (#[trigger] hex_digit(n)) as u32 == 97 + n - 10,
{
    assert(bytes.push(byte).drop_last() =~= bytes);
    assert forall|n: int| 0 <= n < 10 implies (#[trigger] hex_digit(n)) as u32 == 48 + n by {
        assert('0' as int + n == 48 + n);
    }
    assert forall|n: int| 10 <= n < 16 implies (#[trigger] hex_digit(n)) as u32 == 97 + n - 10 by {
        assert('a' as int + n - 10 == 97 + n - 10);
    }
}

} // verus!
