//! Files as text. What a file starts with says how it is encoded.
use vstd::prelude::*;

use crate::capture;
use crate::capture::lossy_text;
use crate::json_input::slice_of;
use crate::lines;
use crate::lines::lines_of;
use crate::strings;
use crate::strings::{replace_text, string_of};

verus! {

/// How a file is encoded.
#[derive(Debug, Clone, Copy, PartialEq, Eq, Structural)]
pub enum TextEncoding {
    Utf8,
    Utf16Le,
    Utf16Be,
}

impl TextEncoding {
    pub fn name(self) -> (name: &'static str)
        ensures
            name@ == match self {
                TextEncoding::Utf8 => "utf8"@,
                TextEncoding::Utf16Le => "utf16le"@,
                TextEncoding::Utf16Be => "utf16be"@,
            },
    {
        match self {
            TextEncoding::Utf8 => "utf8",
            TextEncoding::Utf16Le => "utf16le",
            TextEncoding::Utf16Be => "utf16be",
        }
    }
}

/// Why a file is not read as text.
#[derive(Debug, Clone, Copy, PartialEq, Eq, Structural)]
pub enum DecodeFault {
    /// It has zero bytes, and nothing says that they belong to a text.
    Binary,
    /// It is marked as UTF-32, which could be mistaken for UTF-16.
    Utf32,
}

impl DecodeFault {
    pub open spec fn text(self, path: Seq<char>) -> Seq<char> {
        match self {
            DecodeFault::Binary => path + " contains NUL bytes and does not decode as text"@,
            DecodeFault::Utf32 => path
                + " is UTF-32 text, which is not supported; convert it to UTF-8"@,
        }
    }

    /// What is said of a file that is no text.
    pub fn message(self, path: &str) -> (message: String)
        ensures
            message@ == self.text(path@),
    {
        match self {
            DecodeFault::Binary => path.to_owned().concat(
                " contains NUL bytes and does not decode as text",
            ),
            DecodeFault::Utf32 => path.to_owned().concat(
                " is UTF-32 text, which is not supported; convert it to UTF-8",
            ),
        }
    }
}

pub open spec fn starts(bytes: Seq<u8>, mark: Seq<u8>) -> bool {
    mark.is_prefix_of(bytes)
}

/// How bytes are encoded, and the length of the mark that says so.
pub open spec fn encoding_of(bytes: Seq<u8>) -> Result<(TextEncoding, nat), DecodeFault> {
    if starts(bytes, seq![0xFFu8, 0xFEu8, 0u8, 0u8]) || starts(
        bytes,
        seq![0u8, 0u8, 0xFEu8, 0xFFu8],
    ) {
        Err(DecodeFault::Utf32)
    } else if starts(bytes, seq![0xFFu8, 0xFEu8]) {
        Ok((TextEncoding::Utf16Le, 2))
    } else if starts(bytes, seq![0xFEu8, 0xFFu8]) {
        Ok((TextEncoding::Utf16Be, 2))
    } else if bytes.contains(0u8) {
        Err(DecodeFault::Binary)
    } else if starts(bytes, seq![0xEFu8, 0xBBu8, 0xBFu8]) {
        Ok((TextEncoding::Utf8, 3))
    } else {
        Ok((TextEncoding::Utf8, 0))
    }
}

fn starts_with(bytes: &[u8], mark: &[u8]) -> (held: bool)
    ensures
        held == starts(bytes@, mark@),
{
    let n: usize = mark.len();
    if bytes.len() < n {
        return false;
    }
    let mut i: usize = 0;
    while i < n
        invariant
            i <= n,
            n == mark@.len(),
            n <= bytes@.len(),
            forall|k: int| 0 <= k < i ==> bytes@[k] == mark@[k],
        decreases n - i,
    {
        if bytes[i] != mark[i] {
            assert(bytes@.subrange(0, n as int)[i as int] != mark@[i as int]);
            return false;
        }
        i += 1;
    }
    assert(bytes@.subrange(0, n as int) =~= mark@);
    true
}

fn has_zero(bytes: &[u8]) -> (held: bool)
    ensures
        held == bytes@.contains(0u8),
{
    let mut i: usize = 0;
    while i < bytes.len()
        invariant
            i <= bytes.len(),
            forall|k: int| 0 <= k < i ==> bytes@[k] != 0u8,
        decreases bytes.len() - i,
    {
        if bytes[i] == 0 {
            assert(bytes@[i as int] == 0u8);
            return true;
        }
        i += 1;
    }
    false
}

/// How bytes are encoded, and the length of the mark that says so.
pub fn detect_encoding(bytes: &[u8]) -> (found: Result<(TextEncoding, usize), DecodeFault>)
    ensures
        match found {
            Ok((encoding, length)) => encoding_of(bytes@) == Ok::<(TextEncoding, nat), DecodeFault>(
                (encoding, length as nat),
            ) && length <= bytes@.len(),
            Err(fault) => encoding_of(bytes@) == Err::<(TextEncoding, nat), DecodeFault>(fault),
        },
{
    let utf32_le: Vec<u8> = vec![0xFFu8, 0xFEu8, 0u8, 0u8];
    let utf32_be: Vec<u8> = vec![0u8, 0u8, 0xFEu8, 0xFFu8];
    let utf16_le: Vec<u8> = vec![0xFFu8, 0xFEu8];
    let utf16_be: Vec<u8> = vec![0xFEu8, 0xFFu8];
    let utf8: Vec<u8> = vec![0xEFu8, 0xBBu8, 0xBFu8];
    assert(utf32_le@ =~= seq![0xFFu8, 0xFEu8, 0u8, 0u8]);
    assert(utf32_be@ =~= seq![0u8, 0u8, 0xFEu8, 0xFFu8]);
    assert(utf16_le@ =~= seq![0xFFu8, 0xFEu8]);
    assert(utf16_be@ =~= seq![0xFEu8, 0xFFu8]);
    assert(utf8@ =~= seq![0xEFu8, 0xBBu8, 0xBFu8]);
    if starts_with(bytes, &utf32_le) || starts_with(bytes, &utf32_be) {
        Err(DecodeFault::Utf32)
    } else if starts_with(bytes, &utf16_le) {
        Ok((TextEncoding::Utf16Le, 2))
    } else if starts_with(bytes, &utf16_be) {
        Ok((TextEncoding::Utf16Be, 2))
    } else if has_zero(bytes) {
        Err(DecodeFault::Binary)
    } else if starts_with(bytes, &utf8) {
        Ok((TextEncoding::Utf8, 3))
    } else {
        Ok((TextEncoding::Utf8, 0))
    }
}

/// The unit of two bytes.
pub open spec fn unit_of(first: u8, second: u8, big: bool) -> u32 {
    if big {
        (first as u32 * 256 + second as u32) as u32
    } else {
        (second as u32 * 256 + first as u32) as u32
    }
}

pub open spec fn is_high(unit: u32) -> bool {
    0xD800 <= unit < 0xDC00
}

pub open spec fn is_low(unit: u32) -> bool {
    0xDC00 <= unit < 0xE000
}

/// The character of a unit that is no surrogate, or of a pair of surrogates.
pub open spec fn unit_char(code: u32) -> char {
    code as char
}

/// UTF-16 as text from a byte on. A surrogate without its other half, and a last odd
/// byte, are replaced.
pub open spec fn utf16_from(bytes: Seq<u8>, big: bool, at: int) -> Seq<char>
    decreases bytes.len() - at,
{
    if at < 0 || at >= bytes.len() {
        Seq::empty()
    } else if at + 1 == bytes.len() {
        seq!['\u{FFFD}']
    } else {
        let unit = unit_of(bytes[at], bytes[at + 1], big);
        if is_high(unit) && at + 3 < bytes.len() && is_low(
            unit_of(bytes[at + 2], bytes[at + 3], big),
        ) {
            let low = unit_of(bytes[at + 2], bytes[at + 3], big);
            seq![unit_char(pair_code(unit, low))] + utf16_from(bytes, big, at + 4)
        } else if is_high(unit) || is_low(unit) {
            seq!['\u{FFFD}'] + utf16_from(bytes, big, at + 2)
        } else {
            seq![unit_char(unit)] + utf16_from(bytes, big, at + 2)
        }
    }
}

/// The number of the character that two surrogates stand for.
pub open spec fn pair_code(high: u32, low: u32) -> u32 {
    (0x10000 + (high - 0xD800) * 0x400 + (low - 0xDC00)) as u32
}

fn read_unit(bytes: &[u8], at: usize, big: bool) -> (unit: u32)
    requires
        at + 1 < bytes@.len(),
    ensures
        unit == unit_of(bytes@[at as int], bytes@[at + 1], big),
        unit < 0x10000,
{
    let first = bytes[at] as u32;
    let second = bytes[at + 1] as u32;
    if big {
        first * 256 + second
    } else {
        second * 256 + first
    }
}

fn char_of(code: u32) -> (c: char)
    requires
        code < 0xD800 || 0xE000 <= code < 0x110000,
    ensures
        c == unit_char(code),
{
    match char::from_u32(code) {
        Some(c) => c,
        None => ' ',
    }
}

fn decode_utf16(bytes: &[u8], big: bool) -> (text: String)
    ensures
        text@ == utf16_from(bytes@, big, 0),
{
    let n: usize = bytes.len();
    let mut chars: Vec<char> = Vec::new();
    let mut at: usize = 0;
    assert(chars@ + utf16_from(bytes@, big, 0) =~= utf16_from(bytes@, big, 0));
    while at < n
        invariant
            at <= n,
            n == bytes@.len(),
            chars@ + utf16_from(bytes@, big, at as int) == utf16_from(bytes@, big, 0),
        decreases n - at,
    {
        let ghost before = chars@;
        let ghost rest = utf16_from(bytes@, big, at as int);
        let (c, step): (char, usize) = if n - at == 1 {
            ('\u{FFFD}', 1)
        } else {
            let unit = read_unit(bytes, at, big);
            let high = 0xD800 <= unit && unit < 0xDC00;
            let mut low: u32 = 0;
            if high && n - at > 3 {
                low = read_unit(bytes, at + 2, big);
            }
            if high && 0xDC00 <= low && low < 0xE000 {
                (char_of(0x10000 + (unit - 0xD800) * 0x400 + (low - 0xDC00)), 4)
            } else if 0xD800 <= unit && unit < 0xE000 {
                ('\u{FFFD}', 2)
            } else {
                (char_of(unit), 2)
            }
        };
        chars.push(c);
        assert(rest =~= seq![c] + utf16_from(bytes@, big, at + step));
        assert(chars@ + utf16_from(bytes@, big, at + step) =~= before + rest);
        at += step;
    }
    assert(chars@ + utf16_from(bytes@, big, at as int) =~= chars@);
    string_of(&chars)
}

/// The text of bytes.
pub open spec fn text_of(bytes: Seq<u8>) -> Result<(Seq<char>, TextEncoding), DecodeFault> {
    match encoding_of(bytes) {
        Err(fault) => Err(fault),
        Ok((encoding, length)) => {
            let body = bytes.skip(length as int);
            Ok(
                (
                    match encoding {
                        TextEncoding::Utf8 => capture::lossy(body),
                        TextEncoding::Utf16Le => utf16_from(body, false, 0),
                        TextEncoding::Utf16Be => utf16_from(body, true, 0),
                    },
                    encoding,
                ),
            )
        },
    }
}

/// The text of a file without the mark of its encoding, or why it is none.
pub fn decode_text(bytes: &[u8]) -> (text: Result<(String, TextEncoding), DecodeFault>)
    ensures
        match text {
            Ok((text, encoding)) => text_of(bytes@) == Ok::<(Seq<char>, TextEncoding), DecodeFault>(
                (text@, encoding),
            ),
            Err(fault) => text_of(bytes@) == Err::<(Seq<char>, TextEncoding), DecodeFault>(fault),
        },
        // No character of UTF-8 is lost.
        encoding_of(bytes@) matches Ok((TextEncoding::Utf8, length)) && vstd::utf8::valid_utf8(
            bytes@.skip(length as int),
        ) ==> (text matches Ok((text, _)) && text@ == vstd::utf8::decode_utf8(
            bytes@.skip(encoding_of(bytes@)->Ok_0.1 as int),
        )),
{
    let (encoding, length) = match detect_encoding(bytes) {
        Ok(found) => found,
        Err(fault) => {
            return Err(fault);
        },
    };
    let body = slice_of(bytes, length, bytes.len());
    assert(body@ =~= bytes@.skip(length as int));
    let text = match encoding {
        TextEncoding::Utf8 => lossy_text(&body),
        TextEncoding::Utf16Le => decode_utf16(&body, false),
        TextEncoding::Utf16Be => decode_utf16(&body, true),
    };
    proof {
        vstd::utf8::encode_utf8_decode_utf8(text@);
    }
    Ok((text, encoding))
}

/// A text whose lines all end in a line feed.
pub open spec fn with_line_feeds(text: Seq<char>) -> Seq<char> {
    strings::replaced(strings::replaced(text, "\r\n"@, "\n"@), "\r"@, "\n"@)
}

/// The lines of a file, whatever ends them, or why it has none.
pub fn decode_file_lines(bytes: &[u8]) -> (read: Result<(Vec<String>, TextEncoding), DecodeFault>)
    ensures
        match read {
            Ok((list, encoding)) => text_of(bytes@) matches Ok((text, found)) && found == encoding
                && strings::texts(list@) == lines::text_lines(with_line_feeds(text)),
            Err(fault) => text_of(bytes@) == Err::<(Seq<char>, TextEncoding), DecodeFault>(fault),
        },
{
    let (text, encoding) = match decode_text(bytes) {
        Ok(read) => read,
        Err(fault) => {
            return Err(fault);
        },
    };
    proof {
        reveal_strlit("\r\n");
        reveal_strlit("\r");
    }
    let joined = replace_text(text.as_str(), "\r\n", "\n");
    let plain = replace_text(joined.as_str(), "\r", "\n");
    Ok((lines_of(plain.as_str()), encoding))
}

/// A text has no carriage return left once its lines end in line feeds.
pub proof fn no_return_is_left(text: Seq<char>)
    ensures
        !with_line_feeds(text).contains('\r'),
{
    reveal_strlit("\r");
    reveal_strlit("\n");
    lemma_replaced_return(strings::replaced(text, "\r\n"@, "\n"@), 0);
}

proof fn lemma_replaced_return(text: Seq<char>, at: int)
    requires
        0 <= at,
    ensures
        !strings::replaced_from(text, "\r"@, "\n"@, at).contains('\r'),
    decreases text.len() - at,
{
    reveal_strlit("\r");
    reveal_strlit("\n");
    let all = strings::replaced_from(text, "\r"@, "\n"@, at);
    if at < text.len() {
        lemma_replaced_return(text, at + 1);
        let rest = strings::replaced_from(text, "\r"@, "\n"@, at + 1);
        assert(strings::occurs_at(text, "\r"@, at) == (text[at] == '\r')) by {
            if text[at] == '\r' {
                assert(text.subrange(at, at + 1) =~= "\r"@);
            } else {
                assert(text.subrange(at, at + 1)[0] != "\r"@[0]);
            }
        }
        let first = if text[at] == '\r' {
            '\n'
        } else {
            text[at]
        };
        assert(all =~= seq![first] + rest);
        assert forall|i: int| 0 <= i < all.len() implies all[i] != '\r' by {
            if i > 0 {
                assert(all[i] == rest[i - 1]);
                assert(rest.contains(rest[i - 1]));
            }
        }
    }
}

/// Lines that end in a carriage return and a line feed, or in a carriage return alone,
/// end in a line feed afterwards; everything else stays.
pub proof fn line_ends_become_line_feeds(a: Seq<char>, b: Seq<char>)
    requires
        !a.contains('\r'),
    ensures
        with_line_feeds(a) == a,
        with_line_feeds(a + seq!['\r', '\n'] + b) == a + seq!['\n'] + with_line_feeds(b),
        b.len() == 0 || b[0] != '\n' ==> with_line_feeds(a + seq!['\r'] + b) == a + seq!['\n']
            + with_line_feeds(b),
{
    reveal_strlit("\r\n");
    reveal_strlit("\r");
    reveal_strlit("\n");
    assert("\r\n"@ =~= seq!['\r', '\n']);
    assert("\r"@ =~= seq!['\r']);
    assert("\n"@ =~= seq!['\n']);
    let pair = "\r\n"@;
    let feed = "\n"@;
    // A text without returns.
    assert forall|at: int| !strings::occurs_at(a, pair, at) by {
        if strings::occurs_at(a, pair, at) {
            assert(a.subrange(at, at + 2)[0] == a[at]);
            assert(a.contains(a[at]));
        }
    }
    strings::replacing_goes_from_the_front(a, pair, feed);
    lemma_returns_replaced(a);
    assert(with_line_feeds(a) =~= a);
    // A return and a line feed.
    let full = a + seq!['\r', '\n'] + b;
    strings::found_text_is_the_first(full, pair);
    assert(full.subrange(a.len() as int, a.len() as int + 2) =~= pair);
    match strings::find_text(full, pair, 0) {
        Some(at) => {
            if at < a.len() {
                assert(full.subrange(at, at + 2)[0] == full[at]);
                assert(full[at] == a[at]);
                assert(a.contains(a[at]));
            }
            assert(at == a.len());
        },
        None => {},
    }
    strings::replacing_goes_from_the_front(full, pair, feed);
    assert(full.take(a.len() as int) =~= a);
    assert(full.skip(a.len() as int + 2) =~= b);
    let rest = strings::replaced(b, pair, feed);
    lemma_returns_replaced(a + feed + rest);
    lemma_returns_replaced(rest);
    assert(with_line_feeds(full) =~= a + seq!['\n'] + with_line_feeds(b));
    // A return alone.
    if b.len() == 0 || b[0] != '\n' {
        let bare = a + seq!['\r'] + b;
        assert(bare.skip(a.len() as int + 1) =~= b);
        assert forall|i: int| 0 <= i < a.len() implies #[trigger] bare[i] != '\r' by {
            assert(bare[i] == a[i]);
            assert(a.contains(a[i]));
        }
        lemma_pairs_behind(bare, b, a.len() as int + 1, a.len() as int + 1);
        lemma_pairs_before(bare, a.len() as int + 1, 0);
        assert(bare.subrange(0, a.len() as int + 1) =~= a + seq!['\r']);
        assert(strings::replaced(bare, pair, feed) =~= a + seq!['\r'] + rest);
        lemma_returns_replaced(a + seq!['\r'] + rest);
        assert(with_line_feeds(bare) =~= a + seq!['\n'] + with_line_feeds(b));
    }
}

/// Up to a place before which no pair begins, and at which none is under way, the text
/// is kept.
proof fn lemma_pairs_before(text: Seq<char>, to: int, at: int)
    requires
        0 <= at <= to <= text.len(),
        forall|i: int| at <= i < to ==> !strings::occurs_at(text, "\r\n"@, i),
    ensures
        strings::replaced_from(text, "\r\n"@, "\n"@, at) == text.subrange(at, to)
            + strings::replaced_from(text, "\r\n"@, "\n"@, to),
    decreases to - at,
{
    if at < to {
        lemma_pairs_before(text, to, at + 1);
        assert(seq![text[at]] + text.subrange(at + 1, to) =~= text.subrange(at, to));
        assert(strings::replaced_from(text, "\r\n"@, "\n"@, at) =~= text.subrange(at, to)
            + strings::replaced_from(text, "\r\n"@, "\n"@, to));
    } else {
        assert(text.subrange(at, to) =~= Seq::empty());
        assert(strings::replaced_from(text, "\r\n"@, "\n"@, at) =~= text.subrange(at, to)
            + strings::replaced_from(text, "\r\n"@, "\n"@, to));
    }
}

/// What follows a place is replaced as if it stood alone; and no pair begins before the
/// place, where the text has no return but at its end and no line feed behind that.
proof fn lemma_pairs_behind(text: Seq<char>, rest: Seq<char>, by: int, at: int)
    requires
        0 < by <= at <= text.len(),
        text.skip(by) == rest,
        forall|i: int| 0 <= i < by - 1 ==> #[trigger] text[i] != '\r',
        rest.len() == 0 || rest[0] != '\n',
    ensures
        strings::replaced_from(text, "\r\n"@, "\n"@, at) == strings::replaced_from(
            rest,
            "\r\n"@,
            "\n"@,
            at - by,
        ),
        forall|i: int| 0 <= i < by ==> !#[trigger] strings::occurs_at(text, "\r\n"@, i),
    decreases text.len() - at,
{
    reveal_strlit("\r\n");
    assert("\r\n"@ =~= seq!['\r', '\n']);
    assert forall|i: int| 0 <= i < by implies !#[trigger] strings::occurs_at(
        text,
        "\r\n"@,
        i,
    ) by {
        if strings::occurs_at(text, "\r\n"@, i) {
            assert(text.subrange(i, i + 2)[0] == text[i]);
            assert(text.subrange(i, i + 2)[1] == text[i + 1]);
            if i == by - 1 {
                assert(rest[0] == text[by]);
            }
        }
    }
    if at < text.len() {
        assert(rest[at - by] == text[at]);
        if at + 2 <= text.len() {
            assert(rest.subrange(at - by, at - by + 2) =~= text.subrange(at, at + 2));
        }
        assert(strings::occurs_at(text, "\r\n"@, at) == strings::occurs_at(
            rest,
            "\r\n"@,
            at - by,
        ));
        if strings::occurs_at(text, "\r\n"@, at) {
            lemma_pairs_behind(text, rest, by, at + 2);
        } else {
            lemma_pairs_behind(text, rest, by, at + 1);
        }
    }
}

/// Replacing returns works on each character for itself.
proof fn lemma_returns_replaced(text: Seq<char>)
    ensures
        strings::replaced(text, "\r"@, "\n"@) == text.map_values(
            |c: char|
                if c == '\r' {
                    '\n'
                } else {
                    c
                },
        ),
{
    lemma_returns_replaced_from(text, 0);
    assert(text.skip(0) =~= text);
}

proof fn lemma_returns_replaced_from(text: Seq<char>, at: int)
    requires
        0 <= at <= text.len(),
    ensures
        strings::replaced_from(text, "\r"@, "\n"@, at) == text.skip(at).map_values(
            |c: char|
                if c == '\r' {
                    '\n'
                } else {
                    c
                },
        ),
    decreases text.len() - at,
{
    reveal_strlit("\r");
    reveal_strlit("\n");
    assert("\r"@ =~= seq!['\r']);
    assert("\n"@ =~= seq!['\n']);
    let wanted = text.skip(at).map_values(
        |c: char|
            if c == '\r' {
                '\n'
            } else {
                c
            },
    );
    if at < text.len() {
        lemma_returns_replaced_from(text, at + 1);
        assert(strings::occurs_at(text, "\r"@, at) == (text[at] == '\r')) by {
            if text[at] == '\r' {
                assert(text.subrange(at, at + 1) =~= "\r"@);
            } else {
                assert(text.subrange(at, at + 1)[0] != "\r"@[0]);
            }
        }
        assert(strings::replaced_from(text, "\r"@, "\n"@, at) =~= wanted);
    } else {
        assert(strings::replaced_from(text, "\r"@, "\n"@, at) =~= wanted);
    }
}

/// A character up to U+FFFF that is no surrogate is read from its two bytes, the lower
/// one first or last as the mark says, and what follows them is read behind it.
pub proof fn units_are_read_in_their_order(code: u32, rest: Seq<u8>)
    requires
        code < 0xD800 || 0xE000 <= code < 0x10000,
    ensures
        ({
            let low = (code % 256) as u8;
            let high = (code / 256) as u8;
            &&& utf16_from(seq![low, high] + rest, false, 0) == seq![code as char] + utf16_from(
                rest,
                false,
                0,
            )
            &&& utf16_from(seq![high, low] + rest, true, 0) == seq![code as char] + utf16_from(
                rest,
                true,
                0,
            )
        }),
{
    let low = (code % 256) as u8;
    let high = (code / 256) as u8;
    let little = seq![low, high] + rest;
    let big = seq![high, low] + rest;
    lemma_utf16_moves(little, rest, false, 2, 2);
    lemma_utf16_moves(big, rest, true, 2, 2);
    assert(little.skip(2) =~= rest);
    assert(big.skip(2) =~= rest);
    assert(little[0] == low && little[1] == high);
    assert(big[0] == high && big[1] == low);
    assert(unit_of(low, high, false) == code);
    assert(unit_of(high, low, true) == code);
}

proof fn lemma_utf16_moves(bytes: Seq<u8>, rest: Seq<u8>, big: bool, by: int, at: int)
    requires
        0 <= by <= at,
        bytes.len() == by + rest.len(),
        forall|i: int| by <= i < bytes.len() ==> #[trigger] bytes[i] == rest[i - by],
    ensures
        utf16_from(bytes, big, at) == utf16_from(rest, big, at - by),
    decreases bytes.len() - at,
{
    if at + 1 < bytes.len() {
        assert(bytes[at] == rest[at - by] && bytes[at + 1] == rest[at + 1 - by]);
        if at + 3 < bytes.len() {
            assert(bytes[at + 2] == rest[at + 2 - by] && bytes[at + 3] == rest[at + 3 - by]);
            lemma_utf16_moves(bytes, rest, big, by, at + 4);
        }
        lemma_utf16_moves(bytes, rest, big, by, at + 2);
    }
}

/// A character beyond U+FFFF is read from the pair of surrogates that stands for it.
pub proof fn pairs_stand_for_one_character(code: u32)
    requires
        0x10000 <= code <= 0x10FFFF,
    ensures
        ({
            let high = (0xD800 + (code - 0x10000) / 0x400) as u32;
            let low = (0xDC00 + (code - 0x10000) % 0x400) as u32;
            is_high(high) && is_low(low) && pair_code(high, low) == code
        }),
{
}

/// A mark at the start of a file says how it is encoded and is no part of its text; a
/// file without one is UTF-8, unless a zero byte is in it.
pub proof fn marks_say_how_text_is_encoded(bytes: Seq<u8>)
    ensures
        !bytes.contains(0u8) ==> encoding_of(seq![0xEFu8, 0xBBu8, 0xBFu8] + bytes) == Ok::<
            (TextEncoding, nat),
            DecodeFault,
        >((TextEncoding::Utf8, 3)),
        bytes.len() >= 1 && bytes[0] != 0 ==> encoding_of(seq![0xFFu8, 0xFEu8] + bytes) == Ok::<
            (TextEncoding, nat),
            DecodeFault,
        >((TextEncoding::Utf16Le, 2)),
        encoding_of(seq![0xFEu8, 0xFFu8] + bytes) == Ok::<(TextEncoding, nat), DecodeFault>(
            (TextEncoding::Utf16Be, 2),
        ),
        bytes.len() > 0 && bytes[0] < 0x80 && bytes[0] > 0 ==> encoding_of(bytes) == (
        if bytes.contains(0u8) {
            Err::<(TextEncoding, nat), DecodeFault>(DecodeFault::Binary)
        } else {
            Ok::<(TextEncoding, nat), DecodeFault>((TextEncoding::Utf8, 0))
        }),
{
    let four = seq![0xFFu8, 0xFEu8, 0u8, 0u8];
    let back = seq![0u8, 0u8, 0xFEu8, 0xFFu8];
    let little = seq![0xFFu8, 0xFEu8];
    let big = seq![0xFEu8, 0xFFu8];
    let utf8 = seq![0xEFu8, 0xBBu8, 0xBFu8];
    let a = utf8 + bytes;
    assert(a[0] == 0xEFu8);
    lemma_first_byte(four, a);
    lemma_first_byte(back, a);
    lemma_first_byte(little, a);
    lemma_first_byte(big, a);
    assert(utf8 =~= a.take(3));
    if !bytes.contains(0u8) {
        assert forall|i: int| 0 <= i < a.len() implies a[i] != 0u8 by {
            if i >= 3 {
                assert(bytes.contains(bytes[i - 3]));
            }
        }
    }
    let b = little + bytes;
    assert(b[0] == 0xFFu8);
    assert(little =~= b.take(2));
    lemma_first_byte(back, b);
    if bytes.len() >= 1 && bytes[0] != 0 {
        if four.is_prefix_of(b) {
            assert(b[2] == four[2]);
            assert(b[2] == bytes[0]);
        }
    }
    let c = big + bytes;
    assert(c[0] == 0xFEu8);
    assert(big =~= c.take(2));
    lemma_first_byte(back, c);
    lemma_first_byte(four, c);
    lemma_first_byte(little, c);
    if bytes.len() > 0 {
        lemma_first_byte(four, bytes);
        lemma_first_byte(back, bytes);
        lemma_first_byte(little, bytes);
        lemma_first_byte(big, bytes);
        lemma_first_byte(utf8, bytes);
    }
}

proof fn lemma_first_byte(mark: Seq<u8>, bytes: Seq<u8>)
    requires
        mark.len() > 0,
        bytes.len() > 0,
    ensures
        mark.is_prefix_of(bytes) ==> bytes[0] == mark[0],
{
    if mark.is_prefix_of(bytes) {
        assert(bytes.take(mark.len() as int)[0] == mark[0]);
    }
}

} // verus!
