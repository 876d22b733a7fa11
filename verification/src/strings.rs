//! Character sequences: the classes, searches and cuts that the rest of the
//! library states its rules with.
//!
//! The model of every text is its `Seq<char>` view. Functions that walk a text
//! do so on a `Vec<char>` taken from it once.
use vstd::prelude::*;

verus! {

/// `String::push` appends the given `char` to the end of the string.
pub assume_specification[ String::push ](buffer: &mut String, ch: char)
    ensures
        final(buffer)@ == old(buffer)@.push(ch),
;

/// A text as Rust's `Debug` writes it: in double quotes, with escapes.
pub uninterp spec fn debug_quoted(text: Seq<char>) -> Seq<char>;

/// The `Debug` form of `str`, which depends on the text alone.
#[verifier::external_body]
pub(crate) fn debug_text(text: &str) -> (quoted: String)
    ensures
        quoted@ == debug_quoted(text@),
{
    format!("{text:?}")
}

/// `std::str::from_utf8`: the text of bytes that are UTF-8, and nothing for others.
#[verifier::external_body]
pub(crate) fn utf8_text(bytes: &[u8]) -> (text: Option<String>)
    ensures
        match text {
            Some(text) => vstd::utf8::valid_utf8(bytes@) && text@ == vstd::utf8::decode_utf8(
                bytes@,
            ),
            None => !vstd::utf8::valid_utf8(bytes@),
        },
{
    std::str::from_utf8(bytes).ok().map(str::to_owned)
}

/// A set of characters that texts are cut at or trimmed of.
#[derive(Clone, Copy, PartialEq, Eq, Structural)]
pub enum CharClass {
    /// Unicode white space.
    Space,
    /// `0` to `9`.
    Digit,
    /// Carriage return and line feed.
    LineEnd,
    /// Slash and backslash.
    Separator,
    /// Exactly this character.
    Only(char),
}

pub open spec fn is_digit(c: char) -> bool {
    '0' <= c <= '9'
}

pub open spec fn is_upper(c: char) -> bool {
    'A' <= c <= 'Z'
}

pub open spec fn is_lower(c: char) -> bool {
    'a' <= c <= 'z'
}

pub open spec fn is_alphanumeric(c: char) -> bool {
    is_digit(c) || is_upper(c) || is_lower(c)
}

/// The characters with the Unicode `White_Space` property.
pub open spec fn is_space(c: char) -> bool {
    ||| '\u{9}' <= c <= '\u{d}'
    ||| c == ' '
    ||| c == '\u{85}'
    ||| c == '\u{a0}'
    ||| c == '\u{1680}'
    ||| '\u{2000}' <= c <= '\u{200a}'
    ||| c == '\u{2028}'
    ||| c == '\u{2029}'
    ||| c == '\u{202f}'
    ||| c == '\u{205f}'
    ||| c == '\u{3000}'
}

pub open spec fn in_class(class: CharClass, c: char) -> bool {
    match class {
        CharClass::Space => is_space(c),
        CharClass::Digit => is_digit(c),
        CharClass::LineEnd => c == '\r' || c == '\n',
        CharClass::Separator => c == '/' || c == '\\',
        CharClass::Only(only) => c == only,
    }
}

/// The ASCII lower-case counterpart of a character, itself for any other.
pub open spec fn lower_char(c: char) -> char {
    if is_upper(c) {
        ((c as u32) + 32) as char
    } else {
        c
    }
}

pub open spec fn lower_text(text: Seq<char>) -> Seq<char> {
    text.map_values(|c: char| lower_char(c))
}

/// Equality after ASCII lower-casing both sides.
pub open spec fn same_ignoring_case(a: Seq<char>, b: Seq<char>) -> bool {
    lower_text(a) == lower_text(b)
}

/// Whether `needle` occurs in `text` at position `at`.
pub open spec fn occurs_at(text: Seq<char>, needle: Seq<char>, at: int) -> bool {
    &&& 0 <= at
    &&& at + needle.len() <= text.len()
    &&& text.subrange(at, at + needle.len()) == needle
}

pub open spec fn contains_text(text: Seq<char>, needle: Seq<char>) -> bool {
    exists|at: int| occurs_at(text, needle, at)
}

/// The first position from `from` on whose character is in `class`, or the
/// length of the text.
pub open spec fn find_class(text: Seq<char>, class: CharClass, from: int) -> int
    decreases text.len() - from,
{
    if from < 0 || from >= text.len() {
        text.len() as int
    } else if in_class(class, text[from]) {
        from
    } else {
        find_class(text, class, from + 1)
    }
}

/// One past the last position before `to` whose character is in `class`, or 0.
pub open spec fn rfind_class(text: Seq<char>, class: CharClass, to: int) -> int
    decreases to,
{
    if to <= 0 || to > text.len() {
        0
    } else if in_class(class, text[to - 1]) {
        to
    } else {
        rfind_class(text, class, to - 1)
    }
}

/// The first position from `from` on whose character is not in `class`, or the
/// length of the text.
pub open spec fn skip_class(text: Seq<char>, class: CharClass, from: int) -> int
    decreases text.len() - from,
{
    if from < 0 || from >= text.len() {
        text.len() as int
    } else if !in_class(class, text[from]) {
        from
    } else {
        skip_class(text, class, from + 1)
    }
}

/// One past the last position before `to` whose character is not in `class`.
pub open spec fn rskip_class(text: Seq<char>, class: CharClass, to: int) -> int
    decreases to,
{
    if to <= 0 || to > text.len() {
        0
    } else if !in_class(class, text[to - 1]) {
        to
    } else {
        rskip_class(text, class, to - 1)
    }
}

pub open spec fn trim_start(text: Seq<char>, class: CharClass) -> Seq<char> {
    text.subrange(skip_class(text, class, 0), text.len() as int)
}

pub open spec fn trim_end(text: Seq<char>, class: CharClass) -> Seq<char> {
    text.subrange(0, rskip_class(text, class, text.len() as int))
}

/// A text without its leading and trailing white space.
pub open spec fn trim(text: Seq<char>) -> Seq<char> {
    trim_end(trim_start(text, CharClass::Space), CharClass::Space)
}

/// What stands before and after the first character of the class, if any.
pub open spec fn split_at_first(text: Seq<char>, class: CharClass) -> Option<(Seq<char>, Seq<char>)> {
    let at = find_class(text, class, 0);
    if at < text.len() {
        Some((text.subrange(0, at), text.subrange(at + 1, text.len() as int)))
    } else {
        None
    }
}

/// `text` without the leading `prefix`, if it starts with it.
pub open spec fn without_prefix(text: Seq<char>, prefix: Seq<char>) -> Option<Seq<char>> {
    if prefix.is_prefix_of(text) {
        Some(text.subrange(prefix.len() as int, text.len() as int))
    } else {
        None
    }
}

/// The texts of a sequence of strings.
pub open spec fn texts(tokens: Seq<String>) -> Seq<Seq<char>> {
    tokens.map_values(|token: String| token@)
}

/// The texts laid end to end with `separator` between neighbours.
pub open spec fn join_texts(parts: Seq<Seq<char>>, separator: Seq<char>) -> Seq<char>
    decreases parts.len(),
{
    if parts.len() == 0 {
        Seq::empty()
    } else if parts.len() == 1 {
        parts[0]
    } else {
        join_texts(parts.drop_last(), separator) + separator + parts.last()
    }
}

/// A text that may be missing.
pub open spec fn opt_text(text: Option<&str>) -> Option<Seq<char>> {
    match text {
        Some(text) => Some(text@),
        None => None,
    }
}

/// A string that may be missing.
pub open spec fn text_option(text: Option<String>) -> Option<Seq<char>> {
    match text {
        Some(text) => Some(text@),
        None => None,
    }
}

pub proof fn lemma_find_class_bounds(text: Seq<char>, class: CharClass, from: int)
    requires
        0 <= from <= text.len(),
    ensures
        from <= find_class(text, class, from) <= text.len(),
        forall|i: int| from <= i < find_class(text, class, from) ==> !in_class(class, #[trigger] text[i]),
        find_class(text, class, from) < text.len() ==> in_class(
            class,
            text[find_class(text, class, from)],
        ),
    decreases text.len() - from,
{
    if from < text.len() && !in_class(class, text[from]) {
        lemma_find_class_bounds(text, class, from + 1);
    }
}

pub proof fn lemma_skip_class_bounds(text: Seq<char>, class: CharClass, from: int)
    requires
        0 <= from <= text.len(),
    ensures
        from <= skip_class(text, class, from) <= text.len(),
    decreases text.len() - from,
{
    if from < text.len() && in_class(class, text[from]) {
        lemma_skip_class_bounds(text, class, from + 1);
    }
}

pub proof fn lemma_rskip_class_bounds(text: Seq<char>, class: CharClass, to: int)
    requires
        0 <= to <= text.len(),
    ensures
        0 <= rskip_class(text, class, to) <= to,
    decreases to,
{
    if 0 < to && in_class(class, text[to - 1]) {
        lemma_rskip_class_bounds(text, class, to - 1);
    }
}

pub fn char_in_class(class: CharClass, c: char) -> (held: bool)
    ensures
        held == in_class(class, c),
{
    match class {
        CharClass::Space => {
            ('\u{9}' <= c && c <= '\u{d}') || c == ' ' || c == '\u{85}' || c == '\u{a0}'
                || c == '\u{1680}' || ('\u{2000}' <= c && c <= '\u{200a}') || c == '\u{2028}'
                || c == '\u{2029}' || c == '\u{202f}' || c == '\u{205f}' || c == '\u{3000}'
        },
        CharClass::Digit => '0' <= c && c <= '9',
        CharClass::LineEnd => c == '\r' || c == '\n',
        CharClass::Separator => c == '/' || c == '\\',
        CharClass::Only(only) => c == only,
    }
}

pub fn lower_char_of(c: char) -> (lowered: char)
    ensures
        lowered == lower_char(c),
{
    if 'A' <= c && c <= 'Z' {
        let code: u8 = c as u8;
        (code + 32) as char
    } else {
        c
    }
}

/// The characters of a string.
pub fn chars_of(text: &str) -> (chars: Vec<char>)
    ensures
        chars@ == text@,
{
    let mut chars: Vec<char> = Vec::new();
    for c in walk: text.chars()
        invariant
            walk.seq() == text@,
            chars@ == walk.seq().take(walk.index()),
    {
        chars.push(c);
    }
    chars
}

/// The string with the given characters.
pub fn string_of(chars: &[char]) -> (text: String)
    ensures
        text@ == chars@,
{
    let mut text = String::new();
    let mut i: usize = 0;
    while i < chars.len()
        invariant
            i <= chars.len(),
            text@ == chars@.take(i as int),
        decreases chars.len() - i,
    {
        text.push(chars[i]);
        i += 1;
    }
    text
}

/// The characters from `from` up to `to`.
pub fn cut(chars: &[char], from: usize, to: usize) -> (part: Vec<char>)
    requires
        from <= to <= chars.len(),
    ensures
        part@ == chars@.subrange(from as int, to as int),
{
    let mut part: Vec<char> = Vec::new();
    let mut i: usize = from;
    while i < to
        invariant
            from <= i <= to <= chars.len(),
            part@ == chars@.subrange(from as int, i as int),
        decreases to - i,
    {
        part.push(chars[i]);
        i += 1;
    }
    part
}

/// The string made of the characters from `from` up to `to`.
pub fn cut_string(chars: &[char], from: usize, to: usize) -> (part: String)
    requires
        from <= to <= chars.len(),
    ensures
        part@ == chars@.subrange(from as int, to as int),
{
    let mut part = String::new();
    let mut i: usize = from;
    while i < to
        invariant
            from <= i <= to <= chars.len(),
            part@ == chars@.subrange(from as int, i as int),
        decreases to - i,
    {
        part.push(chars[i]);
        i += 1;
    }
    part
}

pub fn same_text(a: &str, b: &str) -> (same: bool)
    ensures
        same == (a@ == b@),
{
    a.to_owned() == b.to_owned()
}

pub fn same_chars(a: &[char], b: &[char]) -> (same: bool)
    ensures
        same == (a@ == b@),
{
    if a.len() != b.len() {
        return false;
    }
    let mut i: usize = 0;
    while i < a.len()
        invariant
            i <= a.len(),
            a.len() == b.len(),
            a@.take(i as int) == b@.take(i as int),
        decreases a.len() - i,
    {
        if a[i] != b[i] {
            assert(a@[i as int] != b@[i as int]);
            return false;
        }
        assert(a@.take(i as int + 1) == a@.take(i as int).push(a@[i as int]));
        assert(b@.take(i as int + 1) == b@.take(i as int).push(b@[i as int]));
        i += 1;
    }
    assert(a@.take(i as int) == a@);
    assert(b@.take(i as int) == b@);
    true
}

/// Whether `needle` stands in `chars` at `at`.
pub fn occurs_in_at(chars: &[char], needle: &[char], at: usize) -> (found: bool)
    ensures
        found == occurs_at(chars@, needle@, at as int),
{
    if at > chars.len() || needle.len() > chars.len() - at {
        return false;
    }
    let mut i: usize = 0;
    while i < needle.len()
        invariant
            i <= needle.len(),
            at + needle.len() <= chars.len(),
            forall|k: int| 0 <= k < i ==> chars@[at + k] == #[trigger] needle@[k],
        decreases needle.len() - i,
    {
        if chars[at + i] != needle[i] {
            assert(chars@.subrange(at as int, at + needle.len())[i as int] != needle@[i as int]);
            return false;
        }
        i += 1;
    }
    assert(chars@.subrange(at as int, at + needle.len()) =~= needle@);
    true
}

pub fn contains_chars(chars: &[char], needle: &[char]) -> (found: bool)
    ensures
        found == contains_text(chars@, needle@),
{
    let mut at: usize = 0;
    while at <= chars.len()
        invariant
            at <= chars.len() + 1,
            forall|k: int| 0 <= k < at ==> !occurs_at(chars@, needle@, k),
        decreases chars.len() + 1 - at,
    {
        if occurs_in_at(chars, needle, at) {
            return true;
        }
        if at == chars.len() {
            assert forall|k: int| !occurs_at(chars@, needle@, k) by {}
            return false;
        }
        at += 1;
    }
    false
}

pub fn contains(text: &str, needle: &str) -> (found: bool)
    ensures
        found == contains_text(text@, needle@),
{
    contains_chars(&chars_of(text), &chars_of(needle))
}

pub fn starts_with(text: &str, prefix: &str) -> (held: bool)
    ensures
        held == prefix@.is_prefix_of(text@),
{
    occurs_in_at(&chars_of(text), &chars_of(prefix), 0)
}

pub fn ends_with(text: &str, suffix: &str) -> (held: bool)
    ensures
        held == suffix@.is_suffix_of(text@),
{
    let chars = chars_of(text);
    let tail = chars_of(suffix);
    if tail.len() > chars.len() {
        return false;
    }
    occurs_in_at(&chars, &tail, chars.len() - tail.len())
}

/// `text` without `prefix`, where it starts with it.
pub fn strip_prefix(text: &str, prefix: &str) -> (rest: Option<String>)
    ensures
        match rest {
            Some(rest) => without_prefix(text@, prefix@) == Some(rest@),
            None => without_prefix(text@, prefix@) is None,
        },
{
    let chars = chars_of(text);
    let head = chars_of(prefix);
    if occurs_in_at(&chars, &head, 0) {
        Some(cut_string(&chars, head.len(), chars.len()))
    } else {
        None
    }
}

pub fn lower_chars(chars: &[char]) -> (lowered: Vec<char>)
    ensures
        lowered@ == lower_text(chars@),
{
    let mut lowered: Vec<char> = Vec::new();
    let mut i: usize = 0;
    while i < chars.len()
        invariant
            i <= chars.len(),
            lowered@ == lower_text(chars@).take(i as int),
        decreases chars.len() - i,
    {
        lowered.push(lower_char_of(chars[i]));
        i += 1;
    }
    lowered
}

pub fn to_lower(text: &str) -> (lowered: String)
    ensures
        lowered@ == lower_text(text@),
{
    string_of(&lower_chars(&chars_of(text)))
}

pub fn same_text_ignoring_case(a: &str, b: &str) -> (same: bool)
    ensures
        same == same_ignoring_case(a@, b@),
{
    to_lower(a) == to_lower(b)
}

/// The first position from `from` on in the class, or the length.
pub fn find_class_from(chars: &[char], class: CharClass, from: usize) -> (at: usize)
    requires
        from <= chars.len(),
    ensures
        at == find_class(chars@, class, from as int),
        from <= at <= chars.len(),
{
    let mut at: usize = from;
    while at < chars.len() && !char_in_class(class, chars[at])
        invariant
            from <= at <= chars.len(),
            find_class(chars@, class, at as int) == find_class(chars@, class, from as int),
        decreases chars.len() - at,
    {
        at += 1;
    }
    at
}

/// One past the last position in the class, or 0.
pub fn rfind_class_of(chars: &[char], class: CharClass) -> (at: usize)
    ensures
        at == rfind_class(chars@, class, chars@.len() as int),
        at <= chars.len(),
{
    let mut at: usize = chars.len();
    while at > 0 && !char_in_class(class, chars[at - 1])
        invariant
            at <= chars.len(),
            rfind_class(chars@, class, at as int) == rfind_class(chars@, class, chars@.len() as int),
        decreases at,
    {
        at -= 1;
    }
    at
}

pub fn trim_start_of(chars: &[char], class: CharClass) -> (trimmed: Vec<char>)
    ensures
        trimmed@ == trim_start(chars@, class),
{
    let mut at: usize = 0;
    while at < chars.len() && char_in_class(class, chars[at])
        invariant
            at <= chars.len(),
            skip_class(chars@, class, at as int) == skip_class(chars@, class, 0),
        decreases chars.len() - at,
    {
        at += 1;
    }
    cut(chars, at, chars.len())
}

pub fn trim_end_of(chars: &[char], class: CharClass) -> (trimmed: Vec<char>)
    ensures
        trimmed@ == trim_end(chars@, class),
{
    let mut at: usize = chars.len();
    while at > 0 && char_in_class(class, chars[at - 1])
        invariant
            at <= chars.len(),
            rskip_class(chars@, class, at as int) == rskip_class(chars@, class, chars@.len() as int),
        decreases at,
    {
        at -= 1;
    }
    cut(chars, 0, at)
}

pub fn trim_of(text: &str) -> (trimmed: String)
    ensures
        trimmed@ == trim(text@),
{
    let chars = chars_of(text);
    let started = trim_start_of(&chars, CharClass::Space);
    string_of(&trim_end_of(&started, CharClass::Space))
}

/// What stands before and after the first character of the class.
pub fn split_first(text: &str, class: CharClass) -> (halves: Option<(String, String)>)
    ensures
        match halves {
            Some((before, after)) => split_at_first(text@, class) == Some((before@, after@)),
            None => split_at_first(text@, class) is None,
        },
{
    let chars = chars_of(text);
    let at = find_class_from(&chars, class, 0);
    if at < chars.len() {
        Some((cut_string(&chars, 0, at), cut_string(&chars, at + 1, chars.len())))
    } else {
        None
    }
}

/// The strings laid end to end with `separator` between neighbours.
pub fn join(parts: &[String], separator: &str) -> (joined: String)
    ensures
        joined@ == join_texts(texts(parts@), separator@),
{
    let mut joined = String::new();
    let mut i: usize = 0;
    while i < parts.len()
        invariant
            i <= parts.len(),
            joined@ == join_texts(texts(parts@).take(i as int), separator@),
        decreases parts.len() - i,
    {
        let ghost before = texts(parts@).take(i as int);
        let ghost after = texts(parts@).take(i as int + 1);
        assert(after.drop_last() == before);
        assert(after.last() == parts@[i as int]@);
        if i > 0 {
            joined.append(separator);
        }
        joined.append(parts[i].as_str());
        proof {
            if i == 0 {
                assert(joined@ =~= parts@[0]@);
            }
        }
        i += 1;
    }
    assert(texts(parts@).take(i as int) == texts(parts@));
    joined
}

/// A copy of a list of strings.
pub fn copy_strings(tokens: &[String]) -> (copies: Vec<String>)
    ensures
        texts(copies@) == texts(tokens@),
        copies@.len() == tokens@.len(),
{
    let mut copies: Vec<String> = Vec::new();
    let mut i: usize = 0;
    while i < tokens.len()
        invariant
            i <= tokens.len(),
            texts(copies@) == texts(tokens@).take(i as int),
        decreases tokens.len() - i,
    {
        let ghost before = copies@;
        copies.push(tokens[i].clone());
        assert(texts(copies@) =~= texts(before).push(tokens@[i as int]@));
        assert(texts(tokens@).take(i as int + 1) =~= texts(tokens@).take(i as int).push(
            tokens@[i as int]@,
        ));
        i += 1;
    }
    assert(texts(tokens@).take(i as int) == texts(tokens@));
    copies
}

/// Adds a text to a list.
pub fn push_text(list: &mut Vec<String>, text: String)
    ensures
        texts(final(list)@) == texts(old(list)@).push(text@),
        final(list)@.len() == old(list)@.len() + 1,
{
    let ghost before = list@;
    list.push(text);
    assert(texts(list@) =~= texts(before).push(text@));
}

/// The parts of a text from here on, cut at every character of the class.
pub open spec fn parts_from(text: Seq<char>, class: CharClass, from: int) -> Seq<Seq<char>>
    decreases text.len() - from,
    when 0 <= from <= text.len()
{
    proof {
        lemma_find_class_bounds(text, class, from);
    }
    let end = find_class(text, class, from);
    if end >= text.len() {
        seq![text.subrange(from, text.len() as int)]
    } else {
        seq![text.subrange(from, end)] + parts_from(text, class, end + 1)
    }
}

/// The parts of a text, cut at every character of the class.
pub open spec fn parts_of(text: Seq<char>, class: CharClass) -> Seq<Seq<char>> {
    parts_from(text, class, 0)
}

/// Cuts a text at every character of the class.
pub fn split_text(text: &str, class: CharClass) -> (parts: Vec<String>)
    ensures
        texts(parts@) == parts_of(text@, class),
{
    let chars = chars_of(text);
    let mut parts: Vec<String> = Vec::new();
    let mut from: usize = 0;
    assert(texts(parts@) + parts_from(text@, class, 0) =~= parts_of(text@, class));
    loop
        invariant
            chars@ == text@,
            from <= chars.len(),
            texts(parts@) + parts_from(text@, class, from as int) == parts_of(text@, class),
        decreases chars.len() - from,
    {
        proof {
            lemma_find_class_bounds(text@, class, from as int);
        }
        let end = find_class_from(&chars, class, from);
        let ghost before = texts(parts@);
        push_text(&mut parts, cut_string(&chars, from, end));
        assert(texts(parts@) =~= before + seq![text@.subrange(from as int, end as int)]);
        if end >= chars.len() {
            return parts;
        }
        assert(texts(parts@) + parts_from(text@, class, end + 1) =~= before + parts_from(
            text@,
            class,
            from as int,
        ));
        from = end + 1;
    }
}

/// A list of texts as Rust's `Debug` writes it.
pub open spec fn debug_list(list: Seq<Seq<char>>) -> Seq<char> {
    "["@ + join_texts(list.map_values(|text: Seq<char>| debug_quoted(text)), ", "@) + "]"@
}

pub fn debug_list_text(list: &[String]) -> (text: String)
    ensures
        text@ == debug_list(texts(list@)),
{
    let ghost given = texts(list@);
    let ghost wanted = given.map_values(|text: Seq<char>| debug_quoted(text));
    let mut quoted: Vec<String> = Vec::new();
    let mut i: usize = 0;
    assert(texts(quoted@) =~= wanted.take(0));
    while i < list.len()
        invariant
            i <= list.len(),
            given == texts(list@),
            wanted == given.map_values(|text: Seq<char>| debug_quoted(text)),
            texts(quoted@) == wanted.take(i as int),
        decreases list.len() - i,
    {
        assert(given[i as int] == list@[i as int]@);
        push_text(&mut quoted, debug_text(list[i].as_str()));
        assert(wanted.take(i + 1) =~= wanted.take(i as int).push(wanted[i as int]));
        i += 1;
    }
    assert(wanted.take(i as int) =~= wanted);
    "[".to_owned().concat(join(&quoted, ", ").as_str()).concat("]")
}

/// The first position from `from` on at which the needle occurs.
pub open spec fn find_text(text: Seq<char>, needle: Seq<char>, from: int) -> Option<int>
    decreases text.len() - from + 1,
{
    if from < 0 || from > text.len() {
        None
    } else if occurs_at(text, needle, from) {
        Some(from)
    } else {
        find_text(text, needle, from + 1)
    }
}

/// What stands before and after the first occurrence of the needle.
pub open spec fn split_at_text(text: Seq<char>, needle: Seq<char>) -> Option<(Seq<char>, Seq<char>)> {
    match find_text(text, needle, 0) {
        Some(at) => Some((text.take(at), text.skip(at + needle.len()))),
        None => None,
    }
}

/// What stands before and after the first occurrence of the needle.
pub fn split_first_text(text: &str, needle: &str) -> (halves: Option<(String, String)>)
    ensures
        match halves {
            Some((before, after)) => split_at_text(text@, needle@) == Some((before@, after@)),
            None => split_at_text(text@, needle@) is None,
        },
{
    let chars = chars_of(text);
    let sought = chars_of(needle);
    let mut at: usize = 0;
    while at <= chars.len()
        invariant
            at <= chars.len() + 1,
            chars@ == text@,
            sought@ == needle@,
            find_text(text@, needle@, at as int) == find_text(text@, needle@, 0),
        decreases chars.len() + 1 - at,
    {
        if occurs_in_at(&chars, &sought, at) {
            let before = cut_string(&chars, 0, at);
            let after = cut_string(&chars, at + sought.len(), chars.len());
            assert(before@ =~= text@.take(at as int));
            assert(after@ =~= text@.skip(at + needle@.len()));
            return Some((before, after));
        }
        if at == chars.len() {
            assert(find_text(text@, needle@, at + 1) is None);
            return None;
        }
        at += 1;
    }
    None
}

pub open spec fn flag_text(flag: bool) -> Seq<char> {
    if flag {
        "true"@
    } else {
        "false"@
    }
}

/// `true` or `false`.
pub fn flag_word(flag: bool) -> (word: &'static str)
    ensures
        word@ == flag_text(flag),
{
    if flag {
        "true"
    } else {
        "false"
    }
}

/// Adds texts to a list.
pub fn push_all(list: &mut Vec<String>, more: &[String])
    ensures
        texts(final(list)@) == texts(old(list)@) + texts(more@),
{
    let ghost before = texts(list@);
    let ghost added = texts(more@);
    let mut i: usize = 0;
    assert(before + added.take(0) =~= before);
    while i < more.len()
        invariant
            i <= more.len(),
            added == texts(more@),
            texts(list@) == before + added.take(i as int),
        decreases more.len() - i,
    {
        assert(added[i as int] == more@[i as int]@);
        push_text(list, more[i].clone());
        assert(before + added.take(i + 1) =~= (before + added.take(i as int)).push(
            added[i as int],
        ));
        i += 1;
    }
    assert(added.take(i as int) =~= added);
}

/// A text with every occurrence of the needle from here on replaced, from the front.
pub open spec fn replaced_from(text: Seq<char>, needle: Seq<char>, by: Seq<char>, at: int) -> Seq<char>
    decreases text.len() - at,
{
    if at < 0 || at >= text.len() {
        Seq::empty()
    } else if needle.len() > 0 && occurs_at(text, needle, at) {
        by + replaced_from(text, needle, by, at + needle.len())
    } else {
        seq![text[at]] + replaced_from(text, needle, by, at + 1)
    }
}

/// A text with every occurrence of the needle replaced.
pub open spec fn replaced(text: Seq<char>, needle: Seq<char>, by: Seq<char>) -> Seq<char> {
    replaced_from(text, needle, by, 0)
}

/// A text with every occurrence of the needle replaced.
pub fn replace_text(text: &str, needle: &str, by: &str) -> (changed: String)
    requires
        needle@.len() > 0,
    ensures
        changed@ == replaced(text@, needle@, by@),
{
    let chars = chars_of(text);
    let sought = chars_of(needle);
    let mut changed = String::new();
    let mut at: usize = 0;
    assert(changed@ + replaced_from(text@, needle@, by@, 0) =~= replaced(text@, needle@, by@));
    while at < chars.len()
        invariant
            at <= chars.len(),
            chars@ == text@,
            sought@ == needle@,
            needle@.len() > 0,
            changed@ + replaced_from(text@, needle@, by@, at as int) == replaced(
                text@,
                needle@,
                by@,
            ),
        decreases chars.len() - at,
    {
        let ghost before = changed@;
        if occurs_in_at(&chars, &sought, at) {
            changed.append(by);
            assert(changed@ + replaced_from(text@, needle@, by@, at + needle@.len()) =~= before
                + replaced_from(text@, needle@, by@, at as int));
            at += sought.len();
        } else {
            changed.push(chars[at]);
            assert(changed@ + replaced_from(text@, needle@, by@, at + 1) =~= before
                + replaced_from(text@, needle@, by@, at as int));
            at += 1;
        }
    }
    assert(changed@ + replaced_from(text@, needle@, by@, at as int) =~= changed@);
    changed
}

/// A character with an ASCII letter in upper case.
pub open spec fn upper_char(c: char) -> char {
    if 'a' <= c && c <= 'z' {
        ((c as u8 - 32) as u8) as char
    } else {
        c
    }
}

pub open spec fn upper(text: Seq<char>) -> Seq<char> {
    text.map_values(|c: char| upper_char(c))
}

/// A text with its ASCII letters in upper case.
pub fn to_upper(text: &str) -> (raised: String)
    ensures
        raised@ == upper(text@),
{
    let chars = chars_of(text);
    let mut raised = String::new();
    let mut i: usize = 0;
    assert(raised@ =~= upper(text@).take(0));
    while i < chars.len()
        invariant
            i <= chars.len(),
            chars@ == text@,
            raised@ == upper(text@).take(i as int),
        decreases chars.len() - i,
    {
        let c = chars[i];
        let changed = if 'a' <= c && c <= 'z' {
            (c as u8 - 32) as char
        } else {
            c
        };
        raised.push(changed);
        assert(upper(text@).take(i + 1) =~= upper(text@).take(i as int).push(upper_char(c)));
        i += 1;
    }
    assert(upper(text@).take(i as int) =~= upper(text@));
    raised
}

/// A text holds another if and only if it is that other with something, or nothing,
/// before and behind it.
pub proof fn holding_is_a_split(text: Seq<char>, needle: Seq<char>)
    ensures
        contains_text(text, needle) <==> (exists|before: Seq<char>, behind: Seq<char>|
            text == #[trigger] (before + needle + behind)),
{
    if contains_text(text, needle) {
        let at = choose|at: int| occurs_at(text, needle, at);
        let before = text.take(at);
        let behind = text.skip(at + needle.len());
        assert(text =~= before + text.subrange(at, at + needle.len()) + behind);
        assert(text == before + needle + behind);
    }
    if exists|before: Seq<char>, behind: Seq<char>| text == #[trigger] (before + needle + behind) {
        let (before, behind) = choose|before: Seq<char>, behind: Seq<char>|
            text == #[trigger] (before + needle + behind);
        assert(text.subrange(before.len() as int, before.len() as int + needle.len()) =~= needle);
        assert(occurs_at(text, needle, before.len() as int));
    }
}

/// Trimming takes white space off both ends, all of it and nothing else.
pub proof fn trimming_takes_space_off_both_ends(text: Seq<char>)
    ensures
        exists|before: Seq<char>, behind: Seq<char>|
            {
                &&& text == #[trigger] (before + trim(text) + behind)
                &&& forall|i: int| 0 <= i < before.len() ==> is_space(#[trigger] before[i])
                &&& forall|i: int| 0 <= i < behind.len() ==> is_space(#[trigger] behind[i])
            },
        trim(text).len() > 0 ==> !is_space(trim(text)[0]) && !is_space(trim(text).last()),
        is_space(' ') && is_space('\t') && is_space('\n') && is_space('\r'),
        forall|c: char| '!' <= c <= '~' ==> !#[trigger] is_space(c),
{
    let from = skip_class(text, CharClass::Space, 0);
    lemma_skipped(text, CharClass::Space, 0);
    let rest = text.subrange(from, text.len() as int);
    let to = rskip_class(rest, CharClass::Space, rest.len() as int);
    lemma_skipped_back(rest, CharClass::Space, rest.len() as int);
    let before = text.take(from);
    let behind = rest.skip(to);
    assert(text =~= before + trim(text) + behind);
    if trim(text).len() > 0 {
        assert(trim(text)[0] == text[from]);
        assert(trim(text).last() == rest[to - 1]);
    }
}

pub proof fn lemma_skipped(text: Seq<char>, class: CharClass, from: int)
    requires
        0 <= from <= text.len(),
    ensures
        from <= skip_class(text, class, from) <= text.len(),
        forall|i: int| from <= i < skip_class(text, class, from) ==> in_class(class, #[trigger] text[i]),
        skip_class(text, class, from) < text.len() ==> !in_class(
            class,
            text[skip_class(text, class, from)],
        ),
    decreases text.len() - from,
{
    if from < text.len() && in_class(class, text[from]) {
        lemma_skipped(text, class, from + 1);
    }
}

pub proof fn lemma_skipped_back(text: Seq<char>, class: CharClass, to: int)
    requires
        0 <= to <= text.len(),
    ensures
        0 <= rskip_class(text, class, to) <= to,
        forall|i: int| rskip_class(text, class, to) <= i < to ==> in_class(class, #[trigger] text[i]),
        rskip_class(text, class, to) > 0 ==> !in_class(class, text[rskip_class(text, class, to) - 1]),
    decreases to,
{
    if 0 < to && in_class(class, text[to - 1]) {
        lemma_skipped_back(text, class, to - 1);
    }
}

/// A text that neither begins nor ends with white space is left as it is.
pub proof fn trimmed_text_stays(text: Seq<char>)
    requires
        text.len() > 0 ==> !is_space(text[0]) && !is_space(text.last()),
    ensures
        trim(text) == text,
{
    let rest = trim_start(text, CharClass::Space);
    assert(rest =~= text);
    assert(trim_end(rest, CharClass::Space) =~= text);
}

/// Lower-casing works on each character for itself: the capitals `A` to `Z` become
/// small, and no other character changes.
pub proof fn lower_casing_is_per_character(text: Seq<char>)
    ensures
        lower_text(text).len() == text.len(),
        forall|i: int|
            0 <= i < text.len() ==> (if 'A' <= text[i] <= 'Z' {
                (#[trigger] lower_text(text)[i]) as u32 == text[i] as u32 + 32
            } else {
                lower_text(text)[i] == text[i]
            }),
        lower_text(lower_text(text)) == lower_text(text),
{
    assert forall|i: int| 0 <= i < text.len() implies (if 'A' <= text[i] <= 'Z' {
        (#[trigger] lower_text(text)[i]) as u32 == text[i] as u32 + 32
    } else {
        lower_text(text)[i] == text[i]
    }) by {
        let c = text[i];
        assert(lower_text(text)[i] == lower_char(c));
        if 'A' <= c <= 'Z' {
            assert(65u32 <= c as u32 <= 90u32);
        }
    }
    assert(lower_text(lower_text(text)) =~= lower_text(text));
}

/// Joining laws: one text stands for itself, and joining two lists one after the
/// other puts one more separator between what each of them gives.
pub proof fn joining_two_lists(first: Seq<Seq<char>>, second: Seq<Seq<char>>, separator: Seq<char>)
    requires
        first.len() > 0,
        second.len() > 0,
    ensures
        join_texts(first + second, separator) == join_texts(first, separator) + separator
            + join_texts(second, separator),
        join_texts(seq![first[0]], separator) == first[0],
    decreases second.len(),
{
    let both = first + second;
    assert(both.last() == second.last());
    if second.len() == 1 {
        assert(both.drop_last() =~= first);
    } else {
        assert(both.drop_last() =~= first + second.drop_last());
        joining_two_lists(first, second.drop_last(), separator);
        assert(join_texts(both, separator) =~= join_texts(first, separator) + separator
            + join_texts(second, separator));
    }
}

/// The first occurrence is found: the text stands there, and nowhere before it.
pub proof fn found_text_is_the_first(text: Seq<char>, needle: Seq<char>)
    ensures
        match find_text(text, needle, 0) {
            Some(at) => {
                &&& 0 <= at <= text.len() - needle.len()
                &&& text.subrange(at, at + needle.len()) == needle
                &&& forall|before: int|
                    0 <= before < at ==> #[trigger] text.subrange(before, before + needle.len())
                        != needle
            },
            None => forall|at: int|
                0 <= at <= text.len() - needle.len() ==> #[trigger] text.subrange(
                    at,
                    at + needle.len(),
                ) != needle,
        },
{
    lemma_found_from(text, needle, 0);
}

proof fn lemma_found_from(text: Seq<char>, needle: Seq<char>, from: int)
    requires
        0 <= from <= text.len() + 1,
    ensures
        match find_text(text, needle, from) {
            Some(at) => {
                &&& from <= at <= text.len() - needle.len()
                &&& text.subrange(at, at + needle.len()) == needle
                &&& forall|before: int|
                    from <= before < at ==> #[trigger] text.subrange(before, before + needle.len())
                        != needle
            },
            None => forall|at: int|
                from <= at <= text.len() - needle.len() ==> #[trigger] text.subrange(
                    at,
                    at + needle.len(),
                ) != needle,
        },
    decreases text.len() + 1 - from,
{
    if from <= text.len() && !occurs_at(text, needle, from) {
        lemma_found_from(text, needle, from + 1);
    }
}

/// The parts of a text that is cut at a character, laid end to end with that character
/// between them, are the text, and none of them holds the character.
pub proof fn parts_join_to_the_text(text: Seq<char>, at: char)
    ensures
        join_texts(parts_of(text, CharClass::Only(at)), seq![at]) == text,
        parts_of(text, CharClass::Only(at)).len() > 0,
        forall|i: int|
            0 <= i < parts_of(text, CharClass::Only(at)).len() ==> !(#[trigger] parts_of(
                text,
                CharClass::Only(at),
            )[i]).contains(at),
{
    lemma_parts_join(text, at, 0);
    assert(text.skip(0) =~= text);
}

proof fn lemma_parts_join(text: Seq<char>, at: char, from: int)
    requires
        0 <= from <= text.len(),
    ensures
        join_texts(parts_from(text, CharClass::Only(at), from), seq![at]) == text.skip(from),
        parts_from(text, CharClass::Only(at), from).len() > 0,
        forall|i: int|
            0 <= i < parts_from(text, CharClass::Only(at), from).len() ==> !(#[trigger] parts_from(
                text,
                CharClass::Only(at),
                from,
            )[i]).contains(at),
    decreases text.len() - from,
{
    let class = CharClass::Only(at);
    lemma_find_class_bounds(text, class, from);
    let end = find_class(text, class, from);
    let parts = parts_from(text, class, from);
    if end >= text.len() {
        assert(text.subrange(from, text.len() as int) =~= text.skip(from));
        assert(parts =~= seq![text.skip(from)]);
    } else {
        lemma_parts_join(text, at, end + 1);
        let rest = parts_from(text, class, end + 1);
        joining_two_lists(seq![text.subrange(from, end)], rest, seq![at]);
        assert(text.subrange(from, end) + seq![at] + text.skip(end + 1) =~= text.skip(from));
        assert forall|i: int| 0 <= i < parts.len() implies !(#[trigger] parts[i]).contains(at) by {
            if i > 0 {
                assert(parts[i] == rest[i - 1]);
            }
        }
    }
}

/// Replacing leaves a text without the needle as it is, puts the new text in the place
/// of the first occurrence and goes on behind it, and gives the text back where the
/// needle is replaced by itself.
pub proof fn replacing_goes_from_the_front(text: Seq<char>, needle: Seq<char>, by: Seq<char>)
    requires
        needle.len() > 0,
    ensures
        !contains_text(text, needle) ==> replaced(text, needle, by) == text,
        find_text(text, needle, 0) matches Some(at) ==> replaced(text, needle, by) == text.take(at)
            + by + replaced(text.skip(at + needle.len()), needle, by),
        replaced(text, needle, needle) == text,
{
    lemma_replaced_unchanged(text, needle, by, 0);
    assert(text.skip(0) =~= text);
    lemma_replaced_by_itself(text, needle, 0);
    if find_text(text, needle, 0) is Some {
        lemma_found_from(text, needle, 0);
        lemma_replaced_first(text, needle, by, 0);
        assert(text.subrange(0, find_text(text, needle, 0)->0) =~= text.take(
            find_text(text, needle, 0)->0,
        ));
    }
}

proof fn lemma_replaced_unchanged(text: Seq<char>, needle: Seq<char>, by: Seq<char>, at: int)
    requires
        0 <= at <= text.len(),
    ensures
        !contains_text(text, needle) ==> replaced_from(text, needle, by, at) == text.skip(at),
    decreases text.len() - at,
{
    if !contains_text(text, needle) {
        if at < text.len() {
            lemma_replaced_unchanged(text, needle, by, at + 1);
            assert(!occurs_at(text, needle, at));
        }
        assert(replaced_from(text, needle, by, at) =~= text.skip(at));
    }
}

proof fn lemma_replaced_by_itself(text: Seq<char>, needle: Seq<char>, at: int)
    requires
        0 <= at <= text.len(),
        needle.len() > 0,
    ensures
        replaced_from(text, needle, needle, at) == text.skip(at),
    decreases text.len() - at,
{
    if at < text.len() {
        if occurs_at(text, needle, at) {
            lemma_replaced_by_itself(text, needle, at + needle.len());
            assert(text.subrange(at, at + needle.len()) + text.skip(at + needle.len())
                =~= text.skip(at));
        } else {
            lemma_replaced_by_itself(text, needle, at + 1);
        }
    }
    assert(replaced_from(text, needle, needle, at) =~= text.skip(at));
}

proof fn lemma_replaced_first(text: Seq<char>, needle: Seq<char>, by: Seq<char>, from: int)
    requires
        needle.len() > 0,
        0 <= from,
        from <= text.len(),
        find_text(text, needle, from) is Some,
    ensures
        from <= find_text(text, needle, from)->0 <= text.len() - needle.len(),
        replaced_from(text, needle, by, from) == text.subrange(
            from,
            find_text(text, needle, from)->0,
        ) + by + replaced(text.skip(find_text(text, needle, from)->0 + needle.len()), needle, by),
    decreases text.len() - from,
{
    let at = find_text(text, needle, from)->0;
    if from == text.len() {
        assert(find_text(text, needle, from + 1) is None);
    }
    if occurs_at(text, needle, from) {
        lemma_replaced_shift(text, needle, by, from + needle.len(), from + needle.len());
        assert(text.subrange(from, from) + by =~= by);
    } else {
        lemma_replaced_first(text, needle, by, from + 1);
        assert(seq![text[from]] + text.subrange(from + 1, at) =~= text.subrange(from, at));
        assert(replaced_from(text, needle, by, from) =~= text.subrange(from, at) + by + replaced(
            text.skip(at + needle.len()),
            needle,
            by,
        ));
    }
}

proof fn lemma_replaced_shift(text: Seq<char>, needle: Seq<char>, by: Seq<char>, by_how: int, at: int)
    requires
        0 <= by_how <= at,
        by_how <= text.len(),
    ensures
        replaced_from(text, needle, by, at) == replaced_from(
            text.skip(by_how),
            needle,
            by,
            at - by_how,
        ),
    decreases text.len() - at,
{
    let rest = text.skip(by_how);
    if at < text.len() {
        assert(rest[at - by_how] == text[at]);
        if at + needle.len() <= text.len() {
            assert(rest.subrange(at - by_how, at - by_how + needle.len()) =~= text.subrange(
                at,
                at + needle.len(),
            ));
        }
        assert(occurs_at(text, needle, at) == occurs_at(rest, needle, at - by_how));
        if needle.len() > 0 && occurs_at(text, needle, at) {
            lemma_replaced_shift(text, needle, by, by_how, at + needle.len());
        } else {
            lemma_replaced_shift(text, needle, by, by_how, at + 1);
        }
    }
}

/// Cutting a text at a character of the class gives the parts of what stands before it
/// and then those of what stands behind it.
pub proof fn parts_of_joined_texts(a: Seq<char>, at: char, b: Seq<char>, class: CharClass)
    requires
        in_class(class, at),
    ensures
        parts_of(a + seq![at] + b, class) == parts_of(a, class) + parts_of(b, class),
{
    lemma_parts_of_joined(a, at, b, class, 0);
}

proof fn lemma_parts_of_joined(a: Seq<char>, at: char, b: Seq<char>, class: CharClass, from: int)
    requires
        in_class(class, at),
        0 <= from <= a.len(),
    ensures
        parts_from(a + seq![at] + b, class, from) == parts_from(a, class, from) + parts_of(b, class),
    decreases a.len() - from,
{
    let both = a + seq![at] + b;
    lemma_find_class_bounds(a, class, from);
    lemma_find_class_bounds(both, class, from);
    let end = find_class(a, class, from);
    let found = find_class(both, class, from);
    assert(both[a.len() as int] == at);
    assert(found <= a.len());
    assert(found == end) by {
        if found < end {
            assert(both[found] == a[found]);
        } else if end < found {
            assert(both[end] == a[end]);
        }
    }
    if end < a.len() {
        lemma_parts_of_joined(a, at, b, class, end + 1);
        assert(both.subrange(from, end) =~= a.subrange(from, end));
        assert(parts_from(both, class, from) =~= parts_from(a, class, from) + parts_of(b, class));
    } else {
        assert(both.skip(a.len() as int + 1) =~= b);
        lemma_parts_shift(both, b, class, a.len() as int + 1, 0);
        assert(both.subrange(from, end) =~= a.subrange(from, a.len() as int));
        assert(parts_from(both, class, from) =~= parts_from(a, class, from) + parts_of(b, class));
    }
}

proof fn lemma_parts_shift(both: Seq<char>, b: Seq<char>, class: CharClass, by: int, from: int)
    requires
        0 <= by <= both.len(),
        both.skip(by) == b,
        0 <= from <= b.len(),
    ensures
        parts_from(both, class, by + from) == parts_from(b, class, from),
    decreases b.len() - from,
{
    lemma_find_moves(both, b, class, by, from);
    lemma_find_class_bounds(b, class, from);
    let end = find_class(b, class, from);
    assert(both.subrange(by + from, by + end) =~= b.subrange(from, end));
    if end < b.len() {
        lemma_parts_shift(both, b, class, by, end + 1);
    }
}

proof fn lemma_find_moves(both: Seq<char>, b: Seq<char>, class: CharClass, by: int, from: int)
    requires
        0 <= by <= both.len(),
        both.skip(by) == b,
        0 <= from <= b.len(),
    ensures
        find_class(both, class, by + from) == by + find_class(b, class, from),
    decreases b.len() - from,
{
    if from < b.len() {
        assert(both[by + from] == b[from]);
        lemma_find_moves(both, b, class, by, from + 1);
    }
}

/// A text without a character of the class is one part.
pub proof fn lemma_single_part(text: Seq<char>, class: CharClass)
    requires
        forall|i: int| 0 <= i < text.len() ==> !in_class(class, #[trigger] text[i]),
    ensures
        parts_of(text, class) == seq![text],
{
    lemma_find_class_bounds(text, class, 0);
    assert(text.subrange(0, text.len() as int) =~= text);
}

} // verus!
