//! Base64: three bytes in four characters.
use vstd::prelude::*;

use crate::strings;
use crate::strings::{char_in_class, chars_of, string_of, CharClass};

verus! {

/// The character of six bits.
pub open spec fn letter(n: int) -> char {
    if n < 26 {
        ('A' as int + n) as char
    } else if n < 52 {
        ('a' as int + n - 26) as char
    } else if n < 62 {
        ('0' as int + n - 52) as char
    } else if n == 62 {
        '+'
    } else {
        '/'
    }
}

/// The six bits of a character; `-` and `_` stand for `+` and `/`.
pub open spec fn letter_value(c: char) -> Option<int> {
    if 'A' <= c <= 'Z' {
        Some(c as int - 'A' as int)
    } else if 'a' <= c <= 'z' {
        Some(c as int - 'a' as int + 26)
    } else if '0' <= c <= '9' {
        Some(c as int - '0' as int + 52)
    } else if c == '+' || c == '-' {
        Some(62)
    } else if c == '/' || c == '_' {
        Some(63)
    } else {
        None
    }
}

/// White space and padding carry nothing.
pub open spec fn is_filler(c: char) -> bool {
    strings::is_space(c) || c == '='
}

/// The groups of six bits that bytes fall into.
pub open spec fn sextets_of(bytes: Seq<u8>) -> Seq<int>
    decreases bytes.len(),
{
    if bytes.len() == 0 {
        Seq::empty()
    } else {
        let a = bytes[0] as int;
        if bytes.len() == 1 {
            seq![a / 4, (a % 4) * 16]
        } else {
            let b = bytes[1] as int;
            if bytes.len() == 2 {
                seq![a / 4, (a % 4) * 16 + b / 16, (b % 16) * 4]
            } else {
                let c = bytes[2] as int;
                seq![a / 4, (a % 4) * 16 + b / 16, (b % 16) * 4 + c / 64, c % 64] + sextets_of(
                    bytes.skip(3),
                )
            }
        }
    }
}

/// The whole bytes in groups of six bits.
pub open spec fn octets_of(sextets: Seq<int>) -> Seq<u8>
    decreases sextets.len(),
{
    if sextets.len() < 2 {
        Seq::empty()
    } else {
        let a = (sextets[0] * 4 + sextets[1] / 16) as u8;
        if sextets.len() == 2 {
            seq![a]
        } else {
            let b = ((sextets[1] % 16) * 16 + sextets[2] / 4) as u8;
            if sextets.len() == 3 {
                seq![a, b]
            } else {
                let c = ((sextets[2] % 4) * 64 + sextets[3]) as u8;
                seq![a, b, c] + octets_of(sextets.skip(4))
            }
        }
    }
}

/// The Base64 form of bytes, without padding.
pub open spec fn encoded(bytes: Seq<u8>) -> Seq<char> {
    sextets_of(bytes).map_values(|n: int| letter(n))
}

/// The groups of six bits in a token, or the first character that is no letter.
pub open spec fn sextets_in(token: Seq<char>) -> Result<Seq<int>, char>
    decreases token.len(),
{
    if token.len() == 0 {
        Ok(Seq::empty())
    } else {
        match sextets_in(token.drop_last()) {
            Err(c) => Err(c),
            Ok(sextets) => if is_filler(token.last()) {
                Ok(sextets)
            } else {
                match letter_value(token.last()) {
                    Some(n) => Ok(sextets.push(n)),
                    None => Err(token.last()),
                }
            },
        }
    }
}

pub open spec fn decoded(token: Seq<char>) -> Result<Seq<u8>, char> {
    match sextets_in(token) {
        Ok(sextets) => Ok(octets_of(sextets)),
        Err(c) => Err(c),
    }
}

pub proof fn lemma_sextets_bounds(bytes: Seq<u8>)
    ensures
        forall|i: int|
            0 <= i < sextets_of(bytes).len() ==> 0 <= #[trigger] sextets_of(bytes)[i] < 64,
    decreases bytes.len(),
{
    if bytes.len() >= 3 {
        lemma_sextets_bounds(bytes.skip(3));
        let rest = sextets_of(bytes.skip(3));
        assert forall|i: int| 0 <= i < sextets_of(bytes).len() implies 0
            <= #[trigger] sextets_of(bytes)[i] < 64 by {
            if i >= 4 {
                assert(sextets_of(bytes)[i] == rest[i - 4]);
            }
        }
    }
}

proof fn lemma_octets_read_back(bytes: Seq<u8>)
    ensures
        octets_of(sextets_of(bytes)) == bytes,
    decreases bytes.len(),
{
    let sextets = sextets_of(bytes);
    if bytes.len() == 0 {
        assert(octets_of(sextets) =~= bytes);
    } else if bytes.len() <= 2 {
        assert(octets_of(sextets) =~= bytes);
    } else {
        lemma_octets_read_back(bytes.skip(3));
        assert(sextets.skip(4) =~= sextets_of(bytes.skip(3)));
        assert(octets_of(sextets) =~= bytes);
    }
}

proof fn lemma_letters_read_back(sextets: Seq<int>)
    requires
        forall|i: int| 0 <= i < sextets.len() ==> 0 <= #[trigger] sextets[i] < 64,
    ensures
        sextets_in(sextets.map_values(|n: int| letter(n))) == Ok::<Seq<int>, char>(sextets),
    decreases sextets.len(),
{
    let letters = sextets.map_values(|n: int| letter(n));
    if sextets.len() > 0 {
        let fewer = sextets.drop_last();
        assert forall|i: int| 0 <= i < fewer.len() implies 0 <= #[trigger] fewer[i] < 64 by {
            assert(fewer[i] == sextets[i]);
        }
        lemma_letters_read_back(fewer);
        assert(letters.drop_last() =~= fewer.map_values(|n: int| letter(n)));
        let n = sextets[sextets.len() - 1];
        assert(letters.last() == letter(n));
        assert(letter_value(letter(n)) == Some(n));
        assert(!is_filler(letter(n)));
        assert(fewer.push(n) =~= sextets);
    } else {
        assert(sextets =~= Seq::empty());
    }
}

/// Decoding gives back the bytes that were encoded.
pub proof fn decoding_undoes_encoding(bytes: Seq<u8>)
    ensures
        decoded(encoded(bytes)) == Ok::<Seq<u8>, char>(bytes),
{
    lemma_sextets_bounds(bytes);
    lemma_letters_read_back(sextets_of(bytes));
    lemma_octets_read_back(bytes);
}

/// White space and padding at the end of a token change nothing.
pub proof fn filler_is_skipped(token: Seq<char>, c: char)
    requires
        is_filler(c),
    ensures
        decoded(token.push(c)) == decoded(token),
{
    assert(token.push(c).drop_last() =~= token);
}

fn letter_of(n: u8) -> (c: char)
    requires
        n < 64,
    ensures
        c == letter(n as int),
{
    if n < 26 {
        (0x41 + n) as char
    } else if n < 52 {
        (0x61 + (n - 26)) as char
    } else if n < 62 {
        (0x30 + (n - 52)) as char
    } else if n == 62 {
        '+'
    } else {
        '/'
    }
}

fn value_of(c: char) -> (value: Option<u8>)
    ensures
        match value {
            Some(n) => n < 64 && letter_value(c) == Some(n as int),
            None => letter_value(c) is None,
        },
{
    if 'A' <= c && c <= 'Z' {
        Some((c as u32 - 'A' as u32) as u8)
    } else if 'a' <= c && c <= 'z' {
        Some((c as u32 - 'a' as u32 + 26) as u8)
    } else if '0' <= c && c <= '9' {
        Some((c as u32 - '0' as u32 + 52) as u8)
    } else if c == '+' || c == '-' {
        Some(62)
    } else if c == '/' || c == '_' {
        Some(63)
    } else {
        None
    }
}

/// The Base64 form of bytes, without padding.
pub fn encode_base64(bytes: &[u8]) -> (token: String)
    ensures
        token@ == encoded(bytes@),
{
    let mut letters: Vec<char> = Vec::new();
    let mut i: usize = 0;
    let ghost whole = encoded(bytes@);
    assert(bytes@.skip(0) =~= bytes@);
    assert(letters@ + encoded(bytes@.skip(0)) =~= whole);
    while bytes.len() - i >= 3
        invariant
            i <= bytes.len(),
            whole == encoded(bytes@),
            letters@ + encoded(bytes@.skip(i as int)) == whole,
        decreases bytes.len() - i,
    {
        let ghost rest = bytes@.skip(i as int);
        let ghost before = letters@;
        let a = bytes[i];
        let b = bytes[i + 1];
        let c = bytes[i + 2];
        assert(rest[0] == a && rest[1] == b && rest[2] == c);
        letters.push(letter_of(a / 4));
        letters.push(letter_of((a % 4) * 16 + b / 16));
        letters.push(letter_of((b % 16) * 4 + c / 64));
        letters.push(letter_of(c % 64));
        assert(rest.skip(3) =~= bytes@.skip(i + 3));
        assert(letters@ + encoded(bytes@.skip(i + 3)) =~= before + encoded(rest));
        i += 3;
    }
    let ghost rest = bytes@.skip(i as int);
    let ghost before = letters@;
    if bytes.len() - i == 1 {
        let a = bytes[i];
        assert(rest[0] == a);
        letters.push(letter_of(a / 4));
        letters.push(letter_of((a % 4) * 16));
    } else if bytes.len() - i == 2 {
        let a = bytes[i];
        let b = bytes[i + 1];
        assert(rest[0] == a && rest[1] == b);
        letters.push(letter_of(a / 4));
        letters.push(letter_of((a % 4) * 16 + b / 16));
        letters.push(letter_of((b % 16) * 4));
    }
    assert(letters@ =~= before + encoded(rest));
    string_of(&letters)
}

proof fn lemma_first_bad_letter(token: Seq<char>, n: int)
    requires
        0 <= n <= token.len(),
        sextets_in(token.take(n)) is Err,
    ensures
        sextets_in(token) == sextets_in(token.take(n)),
    decreases token.len() - n,
{
    if n < token.len() {
        assert(token.take(n + 1).drop_last() =~= token.take(n));
        lemma_first_bad_letter(token, n + 1);
    } else {
        assert(token.take(n) =~= token);
    }
}

pub open spec fn wide(sextets: Seq<u8>) -> Seq<int> {
    sextets.map_values(|n: u8| n as int)
}

fn read_sextets(token: &str) -> (read: Result<Vec<u8>, char>)
    ensures
        match read {
            Ok(sextets) => {
                &&& sextets_in(token@) == Ok::<Seq<int>, char>(wide(sextets@))
                &&& forall|i: int| 0 <= i < sextets@.len() ==> #[trigger] sextets@[i] < 64
            },
            Err(c) => sextets_in(token@) == Err::<Seq<int>, char>(c),
        },
{
    let chars = chars_of(token);
    let mut sextets: Vec<u8> = Vec::new();
    let mut i: usize = 0;
    assert(wide(sextets@) =~= Seq::empty());
    while i < chars.len()
        invariant
            i <= chars.len(),
            chars@ == token@,
            sextets_in(token@.take(i as int)) == Ok::<Seq<int>, char>(wide(sextets@)),
            forall|i: int| 0 <= i < sextets@.len() ==> #[trigger] sextets@[i] < 64,
        decreases chars.len() - i,
    {
        let c = chars[i];
        assert(token@.take(i + 1).drop_last() =~= token@.take(i as int));
        assert(token@.take(i + 1).last() == c);
        if !char_in_class(CharClass::Space, c) && c != '=' {
            match value_of(c) {
                Some(n) => {
                    let ghost before = sextets@;
                    sextets.push(n);
                    assert(wide(sextets@) =~= wide(before).push(n as int));
                },
                None => {
                    proof {
                        lemma_first_bad_letter(token@, i + 1);
                    }
                    return Err(c);
                },
            }
        }
        i += 1;
    }
    assert(token@.take(i as int) =~= token@);
    Ok(sextets)
}

/// The bytes of a Base64 token, or the first character that does not belong into
/// one.
pub fn decode_letters(token: &str) -> (bytes: Result<Vec<u8>, char>)
    ensures
        match bytes {
            Ok(bytes) => decoded(token@) == Ok::<Seq<u8>, char>(bytes@),
            Err(c) => decoded(token@) == Err::<Seq<u8>, char>(c),
        },
{
    let sextets = match read_sextets(token) {
        Ok(sextets) => sextets,
        Err(c) => {
            return Err(c);
        },
    };
    let ghost all = wide(sextets@);
    let mut bytes: Vec<u8> = Vec::new();
    let mut i: usize = 0;
    assert(all.skip(0) =~= all);
    assert(bytes@ + octets_of(all.skip(0)) =~= octets_of(all));
    while sextets.len() - i >= 4
        invariant
            i <= sextets.len(),
            all == wide(sextets@),
            forall|i: int| 0 <= i < sextets@.len() ==> #[trigger] sextets@[i] < 64,
            bytes@ + octets_of(all.skip(i as int)) == octets_of(all),
        decreases sextets.len() - i,
    {
        let ghost rest = all.skip(i as int);
        let ghost before = bytes@;
        let a = sextets[i];
        let b = sextets[i + 1];
        let c = sextets[i + 2];
        let d = sextets[i + 3];
        assert(rest[0] == a && rest[1] == b && rest[2] == c && rest[3] == d);
        bytes.push(a * 4 + b / 16);
        bytes.push((b % 16) * 16 + c / 4);
        bytes.push((c % 4) * 64 + d);
        assert(rest.skip(4) =~= all.skip(i + 4));
        assert(bytes@ + octets_of(all.skip(i + 4)) =~= before + octets_of(rest));
        i += 4;
    }
    let ghost rest = all.skip(i as int);
    let ghost before = bytes@;
    if sextets.len() - i >= 2 {
        let a = sextets[i];
        let b = sextets[i + 1];
        assert(rest[0] == a && rest[1] == b);
        bytes.push(a * 4 + b / 16);
        if sextets.len() - i == 3 {
            let c = sextets[i + 2];
            assert(rest[2] == c);
            bytes.push((b % 16) * 16 + c / 4);
        }
    }
    assert(bytes@ =~= before + octets_of(rest));
    Ok(bytes)
}

/// The letters stand for their numbers in the order `A` to `Z`, `a` to `z`, `0` to `9`,
/// `+` and `/`; three bytes are four letters whose numbers, each counting 64 times the
/// one behind it, make the number that the bytes make.
pub proof fn letters_and_bytes_make_the_same_number(a: u8, b: u8, c: u8, rest: Seq<u8>)
    ensures
        forall|n: int| 0 <= n < 26 ==> (#[trigger] letter(n)) as u32 == 65 + n,
        forall|n: int| 26 <= n < 52 ==> (#[trigger] letter(n)) as u32 == 97 + n - 26,
        forall|n: int| 52 <= n < 62 ==> (#[trigger] letter(n)) as u32 == 48 + n - 52,
        letter(62) == '+' && letter(63) == '/',
        ({
            let sextets = sextets_of(seq![a, b, c] + rest);
            &&& sextets.len() >= 4
            &&& sextets[0] * 262144 + sextets[1] * 4096 + sextets[2] * 64 + sextets[3] == a as int
                * 65536 + b as int * 256 + c as int
            &&& sextets.skip(4) == sextets_of(rest)
        }),
{
    assert forall|n: int| 0 <= n < 26 implies (#[trigger] letter(n)) as u32 == 65 + n by {
        assert('A' as int + n == 65 + n);
    }
    assert forall|n: int| 26 <= n < 52 implies (#[trigger] letter(n)) as u32 == 97 + n - 26 by {
        assert('a' as int + n - 26 == 97 + n - 26);
    }
    assert forall|n: int| 52 <= n < 62 implies (#[trigger] letter(n)) as u32 == 48 + n - 52 by {
        assert('0' as int + n - 52 == 48 + n - 52);
    }
    let bytes = seq![a, b, c] + rest;
    assert(bytes[0] == a && bytes[1] == b && bytes[2] == c);
    assert(bytes.skip(3) =~= rest);
    assert(sextets_of(bytes).skip(4) =~= sextets_of(rest));
}

} // verus!
