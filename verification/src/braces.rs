//! Literal brace alternatives (`{a,b}`, `{1..3}`) of shell words, expanded under
//! a bound.
use vstd::prelude::*;

use crate::numbers;
use crate::numbers::{parse_i64, signed_decimal_text};
use crate::strings;
use crate::strings::{chars_of, cut_string, CharClass};

verus! {

/// No word and no command expands to more than this many variants.
pub const MAX_BRACE_EXPANSIONS: usize = 32;

/// `char::from_u32` gives the character with the given code, and `None` where
/// the code is that of no character: above `0x10FFFF`, or a surrogate.
pub assume_specification[ char::from_u32 ](code: u32) -> (c: Option<char>)
    ensures
        c == if is_char_code(code as int) {
            Some(code as char)
        } else {
            None
        },
;

/// The parts of a brace body from `start` on, cut at the commas outside inner
/// braces; the scan stands at `i`, `depth` inner braces deep.
pub open spec fn comma_parts(body: Seq<char>, i: int, depth: nat, start: int) -> Seq<Seq<char>>
    decreases body.len() - i,
{
    if i < 0 || i >= body.len() {
        seq![body.subrange(start, body.len() as int)]
    } else if body[i] == '{' {
        comma_parts(body, i + 1, depth + 1, start)
    } else if body[i] == '}' {
        comma_parts(
            body,
            i + 1,
            if depth == 0 {
                0
            } else {
                (depth - 1) as nat
            },
            start,
        )
    } else if body[i] == ',' && depth == 0 {
        seq![body.subrange(start, i)] + comma_parts(body, i + 1, depth, i + 1)
    } else {
        comma_parts(body, i + 1, depth, start)
    }
}

/// The comma-separated alternatives of a brace body, if it holds a comma.
pub open spec fn comma_alternatives(body: Seq<char>) -> Option<Seq<Seq<char>>> {
    let parts = comma_parts(body, 0, 0, 0);
    if parts.len() >= 2 {
        Some(parts)
    } else {
        None
    }
}

/// The parts of a text from `start` on between the leftmost `..` marks.
pub open spec fn dot_parts(text: Seq<char>, i: int, start: int) -> Seq<Seq<char>>
    decreases text.len() - i,
{
    if i < 0 || i + 1 >= text.len() {
        seq![text.subrange(start, text.len() as int)]
    } else if text[i] == '.' && text[i + 1] == '.' {
        seq![text.subrange(start, i)] + dot_parts(text, i + 2, i + 2)
    } else {
        dot_parts(text, i + 1, start)
    }
}

pub open spec fn distance(a: int, b: int) -> int {
    if a <= b {
        b - a
    } else {
        a - b
    }
}

/// How many values lie between `start` and `end` in steps of `step`.
pub open spec fn range_count(start: int, end: int, step: int) -> int {
    distance(start, end) / step + 1
}

/// The `k`-th value on the way from `start` to `end` in steps of `step`.
pub open spec fn range_value(start: int, end: int, step: int, k: int) -> int {
    if start <= end {
        start + k * step
    } else {
        start - k * step
    }
}

/// The values from `start` to `end`, written out; `None` if there are too many.
pub open spec fn number_range(
    start: int,
    end: int,
    step: int,
    width: Option<usize>,
) -> Option<Seq<Seq<char>>> {
    let count = range_count(start, end, step);
    if count > MAX_BRACE_EXPANSIONS {
        None
    } else {
        Some(
            Seq::new(
                count as nat,
                |k: int| numbers::signed_decimal(range_value(start, end, step, k), width),
            ),
        )
    }
}

pub open spec fn is_char_code(code: int) -> bool {
    0 <= code <= 0x10FFFF && !(0xD800 <= code <= 0xDFFF)
}

/// The characters from `start` to `end`; `None` if there are too many, or if one
/// of the codes is no character.
pub open spec fn character_range(start: int, end: int, step: int) -> Option<Seq<Seq<char>>> {
    let count = range_count(start, end, step);
    if count > MAX_BRACE_EXPANSIONS || exists|k: int|
        0 <= k < count && !is_char_code(#[trigger] range_value(start, end, step, k)) {
        None
    } else {
        Some(Seq::new(count as nat, |k: int| seq![range_value(start, end, step, k) as char]))
    }
}

/// The width that a zero-led number asks its range to be written with.
pub open spec fn padded_width(part: Seq<char>) -> Option<nat> {
    let digits = strings::trim_start(part, CharClass::Only('-'));
    if digits.len() > 1 && digits[0] == '0' {
        Some(digits.len())
    } else {
        None
    }
}

pub open spec fn wider(a: Option<nat>, b: Option<nat>) -> Option<nat> {
    match (a, b) {
        (Some(x), Some(y)) => Some(
            if x >= y {
                x
            } else {
                y
            },
        ),
        (Some(x), None) => Some(x),
        (None, y) => y,
    }
}

/// What the braces of a word come to.
pub enum Alternatives {
    /// Nothing to expand.
    Plain,
    /// More variants than the bound allows.
    TooMany,
    /// These alternatives.
    Of(Seq<Seq<char>>),
}

pub open spec fn range_step(parts: Seq<Seq<char>>) -> Option<int> {
    if parts.len() == 3 {
        match numbers::i64_value(parts[2]) {
            Some(step) => Some(
                if step == 0 {
                    1
                } else if step < 0 {
                    -step
                } else {
                    step
                },
            ),
            None => None,
        }
    } else {
        Some(1)
    }
}

/// The alternatives of a `start..end` or `start..end..step` body.
pub open spec fn sequence_alternatives(body: Seq<char>) -> Alternatives {
    let parts = dot_parts(body, 0, 0);
    if !(2 <= parts.len() <= 3) || parts[0].len() == 0 || parts[1].len() == 0 || (parts.len() == 3
        && parts[2].len() == 0) || range_step(parts) is None {
        Alternatives::Plain
    } else {
        let step = range_step(parts)->0;
        let values = match (numbers::i64_value(parts[0]), numbers::i64_value(parts[1])) {
            (Some(start), Some(end)) => Some(
                number_range(
                    start,
                    end,
                    step,
                    match wider(padded_width(parts[0]), padded_width(parts[1])) {
                        Some(width) => Some(width as usize),
                        None => None,
                    },
                ),
            ),
            _ => if parts[0].len() == 1 && parts[1].len() == 1 && (parts[0][0] as u32) < 128 && (
            parts[1][0] as u32) < 128 {
                Some(character_range(parts[0][0] as u32 as int, parts[1][0] as u32 as int, step))
            } else {
                None
            },
        };
        match values {
            None => Alternatives::Plain,
            Some(None) => Alternatives::TooMany,
            Some(Some(values)) => Alternatives::Of(values),
        }
    }
}

/// What a pair of braces around `body` comes to.
pub open spec fn body_alternatives(body: Seq<char>) -> Alternatives {
    match comma_alternatives(body) {
        Some(parts) => Alternatives::Of(parts),
        None => sequence_alternatives(body),
    }
}

/// The first pair of braces that closes at or after `i` and has alternatives:
/// its positions and what it comes to. `opens` are the braces open at `i`.
pub open spec fn first_pair(word: Seq<char>, i: int, opens: Seq<int>) -> (int, int, Alternatives)
    decreases word.len() - i,
{
    if i < 0 || i >= word.len() {
        (0, 0, Alternatives::Plain)
    } else if word[i] == '{' {
        first_pair(word, i + 1, opens.push(i))
    } else if word[i] == '}' && opens.len() > 0 {
        match body_alternatives(word.subrange(opens.last() + 1, i)) {
            Alternatives::Plain => first_pair(word, i + 1, opens.drop_last()),
            found => (opens.last(), i, found),
        }
    } else {
        first_pair(word, i + 1, opens)
    }
}

/// The word with the pair of braces replaced by one alternative.
pub open spec fn with_alternative(word: Seq<char>, open: int, close: int, alternative: Seq<char>) -> Seq<char> {
    word.subrange(0, open) + alternative + word.subrange(close + 1, word.len() as int)
}

/// The words to expand next, the last one first.
pub open spec fn replaced(word: Seq<char>, open: int, close: int, alternatives: Seq<Seq<char>>) -> Seq<Seq<char>> {
    Seq::new(
        alternatives.len(),
        |k: int| with_alternative(word, open, close, alternatives[alternatives.len() - 1 - k]),
    )
}

/// A number that outweighs any 32 words that are each shorter.
pub open spec fn weight(len: nat) -> nat
    decreases len,
{
    if len == 0 {
        1
    } else {
        33 * weight((len - 1) as nat)
    }
}

pub open spec fn total_weight(words: Seq<Seq<char>>) -> nat
    decreases words.len(),
{
    if words.len() == 0 {
        0
    } else {
        total_weight(words.drop_last()) + weight(words.last().len())
    }
}

/// The expansions of the pending words, the last one first, after those already
/// found; `None` once there are too many.
pub open spec fn expand_pending(pending: Seq<Seq<char>>, found: Seq<Seq<char>>) -> Option<
    Seq<Seq<char>>,
>
    decreases total_weight(pending),
{
    if pending.len() == 0 {
        Some(found)
    } else {
        let word = pending.last();
        let rest = pending.drop_last();
        let (open, close, alternatives) = first_pair(word, 0, Seq::empty());
        proof {
            lemma_weight_positive(word.len());
        }
        match alternatives {
            Alternatives::Plain => expand_pending(rest, found.push(word)),
            Alternatives::TooMany => None,
            Alternatives::Of(parts) => if found.len() + rest.len() + parts.len()
                > MAX_BRACE_EXPANSIONS {
                None
            } else {
                proof {
                    lemma_replaced_is_lighter(word, rest);
                }
                expand_pending(rest + replaced(word, open, close, parts), found)
            },
        }
    }
}

/// Every literal variant of a word.
pub open spec fn word_variants(word: Seq<char>) -> Option<Seq<Seq<char>>> {
    expand_pending(seq![word], Seq::empty())
}

/// Every prefix followed by every alternative, prefixes in order, and for each
/// the alternatives in order.
pub open spec fn extended(prefixes: Seq<Seq<Seq<char>>>, alternatives: Seq<Seq<char>>) -> Seq<
    Seq<Seq<char>>,
>
    decreases prefixes.len(),
{
    if prefixes.len() == 0 {
        Seq::empty()
    } else {
        extended(prefixes.drop_last(), alternatives) + alternatives.map_values(
            |alternative: Seq<char>| prefixes.last().push(alternative),
        )
    }
}

/// Every literal variant of the first words of a command; `None` once there are
/// too many.
pub open spec fn command_variants(words: Seq<Seq<char>>) -> Option<Seq<Seq<Seq<char>>>>
    decreases words.len(),
{
    if words.len() == 0 {
        Some(seq![Seq::empty()])
    } else {
        match (command_variants(words.drop_last()), word_variants(words.last())) {
            (Some(prefixes), Some(alternatives)) => if prefixes.len() * alternatives.len()
                > MAX_BRACE_EXPANSIONS {
                None
            } else {
                Some(extended(prefixes, alternatives))
            },
            _ => None,
        }
    }
}

pub proof fn lemma_weight_positive(len: nat)
    ensures
        weight(len) > 0,
    decreases len,
{
    if len > 0 {
        lemma_weight_positive((len - 1) as nat);
    }
}

proof fn lemma_weight_grows(shorter: nat, longer: nat)
    requires
        shorter <= longer,
    ensures
        weight(shorter) <= weight(longer),
    decreases longer - shorter,
{
    if shorter < longer {
        lemma_weight_grows(shorter, (longer - 1) as nat);
        lemma_weight_positive((longer - 1) as nat);
    }
}

proof fn lemma_total_weight_bound(words: Seq<Seq<char>>, len: nat)
    requires
        forall|i: int| 0 <= i < words.len() ==> (#[trigger] words[i]).len() <= len,
    ensures
        total_weight(words) <= words.len() * weight(len),
    decreases words.len(),
{
    if words.len() > 0 {
        let rest = words.drop_last();
        assert forall|i: int| 0 <= i < rest.len() implies (#[trigger] rest[i]).len() <= len by {
            assert(rest[i] == words[i]);
        }
        lemma_total_weight_bound(rest, len);
        lemma_weight_grows(words[words.len() - 1].len(), len);
        assert(words.len() * weight(len) == rest.len() * weight(len) + weight(len))
            by (nonlinear_arith)
            requires
                words.len() == rest.len() + 1,
        ;
    }
}

proof fn lemma_total_weight_concat(a: Seq<Seq<char>>, b: Seq<Seq<char>>)
    ensures
        total_weight(a + b) == total_weight(a) + total_weight(b),
    decreases b.len(),
{
    if b.len() == 0 {
        assert(a + b =~= a);
    } else {
        assert((a + b).drop_last() =~= a + b.drop_last());
        lemma_total_weight_concat(a, b.drop_last());
    }
}

proof fn lemma_comma_parts_fit(body: Seq<char>, i: int, depth: nat, start: int)
    requires
        0 <= start <= i <= body.len(),
    ensures
        comma_parts(body, i, depth, start).len() >= 1,
        forall|k: int|
            0 <= k < comma_parts(body, i, depth, start).len() ==> (#[trigger] comma_parts(
                body,
                i,
                depth,
                start,
            )[k]).len() <= body.len(),
    decreases body.len() - i,
{
    if i < body.len() {
        if body[i] == '{' {
            lemma_comma_parts_fit(body, i + 1, depth + 1, start);
        } else if body[i] == '}' {
            lemma_comma_parts_fit(
                body,
                i + 1,
                if depth == 0 {
                    0
                } else {
                    (depth - 1) as nat
                },
                start,
            );
        } else if body[i] == ',' && depth == 0 {
            lemma_comma_parts_fit(body, i + 1, depth, i + 1);
        } else {
            lemma_comma_parts_fit(body, i + 1, depth, start);
        }
    }
}

spec fn total_len(parts: Seq<Seq<char>>) -> nat
    decreases parts.len(),
{
    if parts.len() == 0 {
        0
    } else {
        parts[0].len() + total_len(parts.drop_first())
    }
}

proof fn lemma_dot_parts_fit(text: Seq<char>, i: int, start: int)
    requires
        0 <= start <= i <= text.len() || (0 <= start <= text.len() && i == text.len() + 1),
    ensures
        dot_parts(text, i, start).len() >= 1,
        total_len(dot_parts(text, i, start)) + 2 * (dot_parts(text, i, start).len() - 1) + start
            == text.len(),
    decreases text.len() - i,
{
    let parts = dot_parts(text, i, start);
    if i < 0 || i + 1 >= text.len() {
        assert(parts.drop_first() =~= Seq::empty());
        assert(total_len(parts.drop_first()) == 0);
    } else if text[i] == '.' && text[i + 1] == '.' {
        let rest = dot_parts(text, i + 2, i + 2);
        lemma_dot_parts_fit(text, i + 2, i + 2);
        assert(parts.drop_first() =~= rest);
    } else {
        lemma_dot_parts_fit(text, i + 1, start);
    }
}

/// A number in a range is no longer, written out, than an endpoint's text.
proof fn lemma_signed_decimal_fits(value: int, low: Seq<char>, high: Seq<char>)
    requires
        numbers::i64_value(low) is Some,
        numbers::i64_value(high) is Some,
        ({
            let a = numbers::i64_value(low)->0;
            let b = numbers::i64_value(high)->0;
            (a <= value <= b) || (b <= value <= a)
        }),
    ensures
        numbers::signed_decimal(value, None).len() <= 1 + low.len() + high.len(),
{
    lemma_size_fits(low);
    lemma_size_fits(high);
    let size = if value < 0 {
        -value
    } else {
        value
    };
    let k = low.len() + high.len();
    lemma_ten_to_grows(low.len(), k);
    lemma_ten_to_grows(high.len(), k);
    numbers::lemma_decimal_len(size as nat, k);
}

proof fn lemma_ten_to_grows(a: nat, b: nat)
    requires
        a <= b,
    ensures
        0 < numbers::ten_to(a) <= numbers::ten_to(b),
    decreases b,
{
    if a < b {
        lemma_ten_to_grows(a, (b - 1) as nat);
    } else if b > 0 {
        lemma_ten_to_grows((a - 1) as nat, (b - 1) as nat);
    }
}

proof fn lemma_size_fits(text: Seq<char>)
    requires
        numbers::signed_value(text) is Some,
    ensures
        text.len() > 0,
        -numbers::ten_to(text.len()) < numbers::signed_value(text)->0 < numbers::ten_to(
            text.len(),
        ),
{
    let signed = text.len() > 0 && (text[0] == '-' || text[0] == '+');
    let digits = if signed {
        text.skip(1)
    } else {
        text
    };
    numbers::lemma_digits_value_bounds(digits);
    lemma_ten_to_grows(digits.len(), text.len());
}

proof fn lemma_range_value_between(start: int, end: int, step: int, k: int)
    requires
        step > 0,
        0 <= k < range_count(start, end, step),
    ensures
        start <= end ==> start <= range_value(start, end, step, k) <= end,
        start > end ==> end <= range_value(start, end, step, k) <= start,
{
    let d = distance(start, end);
    assert(0 <= k * step <= d) by (nonlinear_arith)
        requires
            step > 0,
            d >= 0,
            0 <= k <= d / step,
    ;
}

/// Every alternative of a brace body is shorter than the body with its braces.
proof fn lemma_alternatives_fit(body: Seq<char>)
    ensures
        body_alternatives(body) matches Alternatives::Of(parts) ==> forall|k: int|
            0 <= k < parts.len() ==> (#[trigger] parts[k]).len() < body.len() + 2,
{
    lemma_comma_parts_fit(body, 0, 0, 0);
    if comma_alternatives(body) is None {
        lemma_dot_parts_fit(body, 0, 0);
        let parts = dot_parts(body, 0, 0);
        if sequence_alternatives(body) is Of {
            let values = sequence_alternatives(body)->0;
            reveal_with_fuel(total_len, 4);
            assert(parts.drop_first()[0] == parts[1]);
            assert(parts[0].len() + parts[1].len() + 2 <= body.len());
            let step = range_step(parts)->0;
            assert forall|k: int| 0 <= k < values.len() implies (#[trigger] values[k]).len()
                < body.len() + 2 by {
                if numbers::i64_value(parts[0]) is Some && numbers::i64_value(parts[1]) is Some {
                    let start = numbers::i64_value(parts[0])->0;
                    let end = numbers::i64_value(parts[1])->0;
                    let value = range_value(start, end, step, k);
                    lemma_range_value_between(start, end, step, k);
                    lemma_signed_decimal_fits(value, parts[0], parts[1]);
                    let size = if value < 0 {
                        -value
                    } else {
                        value
                    };
                    strings::lemma_skip_class_bounds(parts[0], CharClass::Only('-'), 0);
                    strings::lemma_skip_class_bounds(parts[1], CharClass::Only('-'), 0);
                }
            }
        }
    }
}

/// The positions of the first pair lie in the word, in order.
proof fn lemma_first_pair_bounds(word: Seq<char>, i: int, opens: Seq<int>)
    requires
        0 <= i <= word.len(),
        forall|k: int| 0 <= k < opens.len() ==> 0 <= #[trigger] opens[k] < i,
    ensures
        ({
            let (open, close, found) = first_pair(word, i, opens);
            found is Plain || (0 <= open < close < word.len() && found == body_alternatives(
                word.subrange(open + 1, close),
            ))
        }),
    decreases word.len() - i,
{
    if i < word.len() {
        if word[i] == '{' {
            lemma_first_pair_bounds(word, i + 1, opens.push(i));
        } else if word[i] == '}' && opens.len() > 0 {
            assert(0 <= opens[opens.len() - 1] < i);
            lemma_first_pair_bounds(word, i + 1, opens.drop_last());
        } else {
            lemma_first_pair_bounds(word, i + 1, opens);
        }
    }
}

/// Replacing a word's first pair of braces makes the pending words lighter.
pub proof fn lemma_replaced_is_lighter(word: Seq<char>, rest: Seq<Seq<char>>)
    ensures
        ({
            let (open, close, found) = first_pair(word, 0, Seq::empty());
            found matches Alternatives::Of(parts) ==> parts.len() <= MAX_BRACE_EXPANSIONS
                ==> total_weight(rest + replaced(word, open, close, parts)) < total_weight(
                rest.push(word),
            )
        }),
        total_weight(rest.push(word)) == total_weight(rest) + weight(word.len()),
{
    assert(rest.push(word).drop_last() =~= rest);
    let (open, close, found) = first_pair(word, 0, Seq::empty());
    lemma_first_pair_bounds(word, 0, Seq::empty());
    if found is Of && found->0.len() <= MAX_BRACE_EXPANSIONS {
        let parts = found->0;
        let body = word.subrange(open + 1, close);
        lemma_alternatives_fit(body);
        let words = replaced(word, open, close, parts);
        let shorter = (word.len() - 1) as nat;
        assert forall|k: int| 0 <= k < words.len() implies (#[trigger] words[k]).len()
            <= shorter by {
            assert(parts[parts.len() - 1 - k].len() < body.len() + 2);
        }
        lemma_total_weight_bound(words, shorter);
        lemma_total_weight_concat(rest, words);
        lemma_weight_positive(shorter);
        assert(words.len() * weight(shorter) <= 32 * weight(shorter)) by (nonlinear_arith)
            requires
                words.len() <= 32,
        ;
        assert(weight(word.len()) == 33 * weight(shorter));
    }
}

/// The comma-separated alternatives of a brace body.
pub fn split_top_level_commas(body: &str) -> (alternatives: Option<Vec<String>>)
    ensures
        match alternatives {
            Some(alternatives) => comma_alternatives(body@) == Some(
                strings::texts(alternatives@),
            ),
            None => comma_alternatives(body@) is None,
        },
{
    let chars = chars_of(body);
    let mut parts: Vec<String> = Vec::new();
    let mut depth: usize = 0;
    let mut start: usize = 0;
    let mut i: usize = 0;
    assert(strings::texts(parts@) + comma_parts(body@, 0, 0, 0) =~= comma_parts(body@, 0, 0, 0));
    while i < chars.len()
        invariant
            chars@ == body@,
            start <= i <= chars.len(),
            depth <= i,
            strings::texts(parts@) + comma_parts(body@, i as int, depth as nat, start as int)
                == comma_parts(body@, 0, 0, 0),
        decreases chars.len() - i,
    {
        let c = chars[i];
        if c == '{' {
            depth += 1;
        } else if c == '}' {
            if depth > 0 {
                depth -= 1;
            }
        } else if c == ',' && depth == 0 {
            let ghost before = parts@;
            let ghost rest = comma_parts(body@, i + 1, 0, i + 1);
            let part = cut_string(&chars, start, i);
            parts.push(part);
            assert(strings::texts(parts@) =~= strings::texts(before).push(part@));
            assert(strings::texts(parts@) + rest =~= strings::texts(before) + (seq![part@] + rest));
            start = i + 1;
        }
        i += 1;
    }
    let ghost before = parts@;
    let part = cut_string(&chars, start, chars.len());
    parts.push(part);
    assert(strings::texts(parts@) =~= strings::texts(before) + seq![part@]);
    if parts.len() >= 2 {
        Some(parts)
    } else {
        None
    }
}

fn split_dots(text: &str) -> (parts: Vec<String>)
    ensures
        strings::texts(parts@) == dot_parts(text@, 0, 0),
{
    let chars = chars_of(text);
    let mut parts: Vec<String> = Vec::new();
    let mut start: usize = 0;
    let mut i: usize = 0;
    assert(strings::texts(parts@) + dot_parts(text@, 0, 0) =~= dot_parts(text@, 0, 0));
    while i < chars.len() && i + 1 < chars.len()
        invariant
            chars@ == text@,
            start <= i <= chars.len(),
            strings::texts(parts@) + dot_parts(text@, i as int, start as int) == dot_parts(
                text@,
                0,
                0,
            ),
        decreases chars.len() - i,
    {
        if chars[i] == '.' && chars[i + 1] == '.' {
            let ghost before = parts@;
            let ghost rest = dot_parts(text@, i + 2, i + 2);
            let part = cut_string(&chars, start, i);
            parts.push(part);
            assert(strings::texts(parts@) =~= strings::texts(before).push(part@));
            assert(strings::texts(parts@) + rest =~= strings::texts(before) + (seq![part@] + rest));
            i += 2;
            start = i;
        } else {
            i += 1;
        }
    }
    let ghost before = parts@;
    let part = cut_string(&chars, start, chars.len());
    parts.push(part);
    assert(strings::texts(parts@) =~= strings::texts(before) + seq![part@]);
    parts
}

/// The numbers from `start` to `end` in steps of `step`, written out.
pub fn numeric_range_values(
    start: i64,
    end: i64,
    step: u64,
    width: Option<usize>,
) -> (values: Result<Vec<String>, ()>)
    requires
        step > 0,
    ensures
        match values {
            Ok(values) => number_range(start as int, end as int, step as int, width) == Some(
                strings::texts(values@),
            ),
            Err(_) => number_range(start as int, end as int, step as int, width) is None,
        },
{
    let apart: u64 = if start <= end {
        (end as i128 - start as i128) as u64
    } else {
        (start as i128 - end as i128) as u64
    };
    let steps: u64 = apart / step;
    if steps >= MAX_BRACE_EXPANSIONS as u64 {
        return Err(());
    }
    let ascending = start <= end;
    let mut values: Vec<String> = Vec::new();
    let mut k: u64 = 0;
    let ghost wanted = number_range(start as int, end as int, step as int, width)->0;
    while k <= steps
        invariant
            step > 0,
            k <= steps + 1,
            steps < MAX_BRACE_EXPANSIONS,
            steps as int == distance(start as int, end as int) / (step as int),
            ascending == (start <= end),
            wanted == number_range(start as int, end as int, step as int, width)->0,
            strings::texts(values@) == wanted.take(k as int),
        decreases steps + 1 - k,
    {
        proof {
            lemma_range_value_between(start as int, end as int, step as int, k as int);
            assert(k * step <= 32 * u64::MAX) by (nonlinear_arith)
                requires
                    k <= 32,
                    step <= u64::MAX,
            ;
        }
        let offset: i128 = k as i128 * step as i128;
        let value: i64 = if ascending {
            (start as i128 + offset) as i64
        } else {
            (start as i128 - offset) as i64
        };
        let ghost before = values@;
        let text = signed_decimal_text(value, width);
        values.push(text);
        assert(strings::texts(values@) =~= strings::texts(before).push(text@));
        assert(wanted.take(k as int + 1) =~= wanted.take(k as int).push(wanted[k as int]));
        k += 1;
    }
    assert(wanted.take(k as int) =~= wanted);
    Ok(values)
}

/// The characters from `start` to `end` in steps of `step`.
pub fn character_range_values(start: char, end: char, step: u64) -> (values: Result<
    Vec<String>,
    (),
>)
    requires
        step > 0,
    ensures
        match values {
            Ok(values) => character_range(start as u32 as int, end as u32 as int, step as int)
                == Some(strings::texts(values@)),
            Err(_) => character_range(start as u32 as int, end as u32 as int, step as int) is None,
        },
{
    let first: u32 = start as u32;
    let last: u32 = end as u32;
    let apart: u64 = if first <= last {
        (last - first) as u64
    } else {
        (first - last) as u64
    };
    let steps: u64 = apart / step;
    if steps >= MAX_BRACE_EXPANSIONS as u64 {
        return Err(());
    }
    let ascending = first <= last;
    let mut values: Vec<String> = Vec::new();
    let mut k: u64 = 0;
    let ghost count = range_count(first as int, last as int, step as int);
    let ghost wanted = Seq::new(
        count as nat,
        |k: int| seq![range_value(first as int, last as int, step as int, k) as char],
    );
    while k <= steps
        invariant
            step > 0,
            k <= steps + 1,
            steps < MAX_BRACE_EXPANSIONS,
            steps as int == distance(first as int, last as int) / (step as int),
            count == steps + 1,
            first == start as u32,
            last == end as u32,
            ascending == (first <= last),
            count == range_count(first as int, last as int, step as int),
            wanted == Seq::new(
                count as nat,
                |k: int| seq![range_value(first as int, last as int, step as int, k) as char],
            ),
            forall|j: int|
                0 <= j < k ==> is_char_code(
                    #[trigger] range_value(first as int, last as int, step as int, j),
                ),
            strings::texts(values@) == wanted.take(k as int),
        decreases steps + 1 - k,
    {
        proof {
            lemma_range_value_between(first as int, last as int, step as int, k as int);
            assert(k * step <= 32 * u64::MAX) by (nonlinear_arith)
                requires
                    k <= 32,
                    step <= u64::MAX,
            ;
        }
        let offset: i128 = k as i128 * step as i128;
        let code: u32 = if ascending {
            (first as i128 + offset) as u32
        } else {
            (first as i128 - offset) as u32
        };
        assert(code as int == range_value(first as int, last as int, step as int, k as int));
        match char::from_u32(code) {
            None => {
                assert(!is_char_code(
                    range_value(first as int, last as int, step as int, k as int),
                ));
                return Err(());
            },
            Some(c) => {
                let ghost before = values@;
                let mut text = String::new();
                text.push(c);
                assert(text@ =~= seq![c]);
                values.push(text);
                assert(strings::texts(values@) =~= strings::texts(before).push(text@));
                assert(wanted.take(k as int + 1) =~= wanted.take(k as int).push(wanted[k as int]));
            },
        }
        k += 1;
    }
    assert(wanted.take(k as int) =~= wanted);
    Ok(values)
}

fn width_of(part: &str) -> (width: Option<usize>)
    ensures
        match width {
            Some(width) => padded_width(part@) == Some(width as nat),
            None => padded_width(part@) is None,
        },
{
    let chars = chars_of(part);
    let digits = strings::trim_start_of(&chars, CharClass::Only('-'));
    if digits.len() > 1 && digits[0] == '0' {
        Some(digits.len())
    } else {
        None
    }
}

/// The alternatives of a `start..end` or `start..end..step` body: `Ok(None)`
/// where it is no such body, an error where it has too many.
pub fn brace_sequence_alternatives(body: &str) -> (alternatives: Result<Option<Vec<String>>, ()>)
    ensures
        match alternatives {
            Ok(None) => sequence_alternatives(body@) is Plain,
            Ok(Some(values)) => sequence_alternatives(body@) == Alternatives::Of(
                strings::texts(values@),
            ),
            Err(_) => sequence_alternatives(body@) is TooMany,
        },
{
    let parts = split_dots(body);
    let ghost model = dot_parts(body@, 0, 0);
    assert(model.len() == parts@.len());
    if parts.len() < 2 || parts.len() > 3 {
        return Ok(None);
    }
    assert(model[0] == parts@[0]@ && model[1] == parts@[1]@);
    if parts[0].as_str().is_empty() || parts[1].as_str().is_empty() || (parts.len() == 3 && parts[2].as_str().is_empty()) {
        return Ok(None);
    }
    let mut step: u64 = 1;
    if parts.len() == 3 {
        assert(model[2] == parts@[2]@);
        match parse_i64(parts[2].as_str()) {
            None => {
                return Ok(None);
            },
            Some(given) => {
                if given < 0 {
                    step = (-(given as i128)) as u64;
                } else if given > 0 {
                    step = given as u64;
                }
            },
        }
    }
    assert(range_step(model) == Some(step as int));
    match (parse_i64(parts[0].as_str()), parse_i64(parts[1].as_str())) {
        (Some(start), Some(end)) => {
            let width = match (width_of(parts[0].as_str()), width_of(parts[1].as_str())) {
                (Some(a), Some(b)) => Some(
                    if a >= b {
                        a
                    } else {
                        b
                    },
                ),
                (Some(a), None) => Some(a),
                (None, b) => b,
            };
            match numeric_range_values(start, end, step, width) {
                Ok(values) => Ok(Some(values)),
                Err(_) => Err(()),
            }
        },
        _ => {
            let first = chars_of(parts[0].as_str());
            let last = chars_of(parts[1].as_str());
            if first.len() != 1 || last.len() != 1 || first[0] as u32 >= 128 || last[0] as u32
                >= 128 {
                return Ok(None);
            }
            match character_range_values(first[0], last[0], step) {
                Ok(values) => Ok(Some(values)),
                Err(_) => Err(()),
            }
        },
    }
}

/// The first pair of braces of a word that has alternatives: its positions and
/// the alternatives. An error where it has too many.
pub fn literal_brace_alternatives(word: &str) -> (found: Result<
    Option<(usize, usize, Vec<String>)>,
    (),
>)
    ensures
        ({
            let (first, last, alternatives) = first_pair(word@, 0, Seq::empty());
            match found {
                Ok(None) => alternatives is Plain,
                Ok(Some((open, close, values))) => {
                    &&& alternatives == Alternatives::Of(strings::texts(values@))
                    &&& open == first
                    &&& close == last
                    &&& open < close < word@.len()
                },
                Err(_) => alternatives is TooMany,
            }
        }),
{
    let chars = chars_of(word);
    let mut opens: Vec<usize> = Vec::new();
    let mut i: usize = 0;
    let ghost whole = first_pair(word@, 0, Seq::empty());
    assert(open_positions(opens@) =~= Seq::empty());
    while i < chars.len()
        invariant
            chars@ == word@,
            i <= chars.len(),
            forall|k: int| 0 <= k < opens.len() ==> #[trigger] opens@[k] < i,
            whole == first_pair(word@, 0, Seq::empty()),
            first_pair(word@, i as int, open_positions(opens@)) == whole,
        decreases chars.len() - i,
    {
        let c = chars[i];
        if c == '{' {
            let ghost before = opens@;
            opens.push(i);
            assert(open_positions(opens@) =~= open_positions(before).push(i as int));
        } else if c == '}' && opens.len() > 0 {
            let ghost before = opens@;
            let open = opens[opens.len() - 1];
            opens.pop();
            assert(open_positions(opens@) =~= open_positions(before).drop_last());
            assert(open_positions(before).last() == open as int);
            assert(before[before.len() - 1] == open);
            let body = cut_string(&chars, open + 1, i);
            if let Some(values) = split_top_level_commas(body.as_str()) {
                return Ok(Some((open, i, values)));
            }
            match brace_sequence_alternatives(body.as_str()) {
                Err(_) => {
                    return Err(());
                },
                Ok(Some(values)) => {
                    return Ok(Some((open, i, values)));
                },
                Ok(None) => {},
            }
        }
        i += 1;
    }
    Ok(None)
}

spec fn open_positions(opens: Seq<usize>) -> Seq<int> {
    opens.map_values(|open: usize| open as int)
}

/// Every literal variant of a word; an error where there are too many.
pub fn literal_brace_expansions(word: &str) -> (variants: Result<Vec<String>, ()>)
    ensures
        match variants {
            Ok(variants) => word_variants(word@) == Some(strings::texts(variants@)),
            Err(_) => word_variants(word@) is None,
        },
        variants matches Ok(variants) ==> variants@.len() <= MAX_BRACE_EXPANSIONS,
{
    let mut pending: Vec<String> = vec![word.to_owned()];
    let mut found: Vec<String> = Vec::new();
    assert(strings::texts(pending@) =~= seq![word@]);
    assert(strings::texts(found@) =~= Seq::empty());
    while pending.len() > 0
        invariant
            pending.len() + found.len() <= MAX_BRACE_EXPANSIONS,
            expand_pending(strings::texts(pending@), strings::texts(found@)) == word_variants(
                word@,
            ),
        decreases total_weight(strings::texts(pending@)),
    {
        let ghost stack = strings::texts(pending@);
        let ghost done = strings::texts(found@);
        let next = pending[pending.len() - 1].clone();
        pending.pop();
        assert(strings::texts(pending@) =~= stack.drop_last());
        assert(stack.last() == next@);
        let ghost rest = strings::texts(pending@);
        assert(stack =~= rest.push(next@));
        proof {
            lemma_replaced_is_lighter(next@, rest);
            lemma_weight_positive(next@.len());
        }
        match literal_brace_alternatives(next.as_str()) {
            Err(_) => {
                return Err(());
            },
            Ok(None) => {
                found.push(next);
                assert(strings::texts(found@) =~= done.push(next@));
            },
            Ok(Some((open, close, values))) => {
                if values.len() > MAX_BRACE_EXPANSIONS || found.len() + pending.len()
                    > MAX_BRACE_EXPANSIONS - values.len() {
                    return Err(());
                }
                let chars = chars_of(next.as_str());
                assert(close < chars.len());
                let head = cut_string(&chars, 0, open);
                let tail = cut_string(&chars, close + 1, chars.len());
                let ghost parts = strings::texts(values@);
                let ghost words = replaced(next@, open as int, close as int, parts);
                let mut k: usize = values.len();
                let ghost mut pushed: int = 0;
                while k > 0
                    invariant
                        k <= values.len(),
                        pushed == values.len() - k,
                        parts == strings::texts(values@),
                        words == replaced(next@, open as int, close as int, parts),
                        head@ == next@.subrange(0, open as int),
                        tail@ == next@.subrange(close + 1, next@.len() as int),
                        pending.len() == rest.len() + pushed,
                        strings::texts(pending@) == rest + words.take(pushed),
                    decreases k,
                {
                    k -= 1;
                    let mut text = head.clone();
                    text.append(values[k].as_str());
                    text.append(tail.as_str());
                    assert(parts[k as int] == values@[k as int]@);
                    assert(words[pushed] == text@);
                    let ghost before = pending@;
                    pending.push(text);
                    assert(strings::texts(pending@) =~= strings::texts(before).push(text@));
                    assert(rest + words.take(pushed + 1) =~= (rest + words.take(pushed)).push(
                        words[pushed],
                    ));
                    proof {
                        pushed = pushed + 1;
                    }
                }
                assert(words.take(pushed) =~= words);
            },
        }
    }
    Ok(found)
}

proof fn lemma_extended_step(prefixes: Seq<Seq<Seq<char>>>, alternatives: Seq<Seq<char>>, n: int)
    requires
        0 <= n < prefixes.len(),
    ensures
        extended(prefixes.take(n + 1), alternatives) == extended(prefixes.take(n), alternatives)
            + alternatives.map_values(|alternative: Seq<char>| prefixes[n].push(alternative)),
{
    assert(prefixes.take(n + 1).drop_last() =~= prefixes.take(n));
    assert(prefixes.take(n + 1).last() == prefixes[n]);
}

proof fn lemma_extended_len(prefixes: Seq<Seq<Seq<char>>>, alternatives: Seq<Seq<char>>)
    ensures
        extended(prefixes, alternatives).len() == prefixes.len() * alternatives.len(),
    decreases prefixes.len(),
{
    if prefixes.len() > 0 {
        lemma_extended_len(prefixes.drop_last(), alternatives);
        assert(prefixes.len() * alternatives.len() == (prefixes.len() - 1) * alternatives.len()
            + alternatives.len()) by (nonlinear_arith);
    } else {
        assert(0 * alternatives.len() == 0) by (nonlinear_arith);
    }
}

/// Every variant of a command that the braces of its words spell out; an error
/// where there are too many.
pub fn expand_literal_braces(words: &[String]) -> (variants: Result<Vec<Vec<String>>, ()>)
    ensures
        match variants {
            Ok(variants) => command_variants(strings::texts(words@)) == Some(
                crate::shell_parse::command_texts(variants@),
            ),
            Err(_) => command_variants(strings::texts(words@)) is None,
        },
{
    let ghost all = strings::texts(words@);
    let first: Vec<String> = Vec::new();
    assert(strings::texts(first@) =~= Seq::empty());
    let mut variants: Vec<Vec<String>> = vec![first];
    assert(crate::shell_parse::command_texts(variants@) =~= seq![Seq::empty()]);
    let mut i: usize = 0;
    while i < words.len()
        invariant
            i <= words.len(),
            all == strings::texts(words@),
            variants.len() <= MAX_BRACE_EXPANSIONS,
            command_variants(all.take(i as int)) == Some(
                crate::shell_parse::command_texts(variants@),
            ),
        decreases words.len() - i,
    {
        let ghost prefixes = crate::shell_parse::command_texts(variants@);
        assert(all.take(i + 1).drop_last() =~= all.take(i as int));
        assert(all.take(i + 1).last() == words@[i as int]@);
        match literal_brace_expansions(words[i].as_str()) {
            Err(_) => {
                proof {
                    lemma_variants_stay_none(all, i + 1);
                }
                return Err(());
            },
            Ok(alternatives) => {
                let ghost parts = strings::texts(alternatives@);
                assert(variants.len() * alternatives.len() <= 32 * 32) by (nonlinear_arith)
                    requires
                        variants.len() <= 32,
                        alternatives.len() <= 32,
                ;
                if variants.len() * alternatives.len() > MAX_BRACE_EXPANSIONS {
                    proof {
                        lemma_variants_stay_none(all, i + 1);
                    }
                    return Err(());
                }
                let mut longer: Vec<Vec<String>> = Vec::new();
                let mut p: usize = 0;
                assert(crate::shell_parse::command_texts(longer@) =~= extended(
                    prefixes.take(0),
                    parts,
                ));
                while p < variants.len()
                    invariant
                        p <= variants.len(),
                        prefixes == crate::shell_parse::command_texts(variants@),
                        parts == strings::texts(alternatives@),
                        crate::shell_parse::command_texts(longer@) == extended(
                            prefixes.take(p as int),
                            parts,
                        ),
                    decreases variants.len() - p,
                {
                    let ghost done = crate::shell_parse::command_texts(longer@);
                    let ghost added = parts.map_values(
                        |alternative: Seq<char>| prefixes[p as int].push(alternative),
                    );
                    let mut a: usize = 0;
                    assert(done + added.take(0) =~= done);
                    while a < alternatives.len()
                        invariant
                            a <= alternatives.len(),
                            p < variants.len(),
                            prefixes == crate::shell_parse::command_texts(variants@),
                            parts == strings::texts(alternatives@),
                            added == parts.map_values(
                                |alternative: Seq<char>| prefixes[p as int].push(alternative),
                            ),
                            crate::shell_parse::command_texts(longer@) == done + added.take(
                                a as int,
                            ),
                        decreases alternatives.len() - a,
                    {
                        let ghost before = longer@;
                        let mut variant = strings::copy_strings(&variants[p]);
                        let ghost copied = variant@;
                        let alternative = alternatives[a].clone();
                        variant.push(alternative);
                        assert(strings::texts(variant@) =~= strings::texts(copied).push(
                            alternative@,
                        ));
                        assert(added[a as int] == strings::texts(variant@));
                        longer.push(variant);
                        assert(crate::shell_parse::command_texts(longer@)
                            =~= crate::shell_parse::command_texts(before).push(
                            strings::texts(variant@),
                        ));
                        assert(done + added.take(a + 1) =~= (done + added.take(a as int)).push(
                            added[a as int],
                        ));
                        a += 1;
                    }
                    assert(added.take(a as int) =~= added);
                    proof {
                        lemma_extended_step(prefixes, parts, p as int);
                    }
                    p += 1;
                }
                assert(prefixes.take(p as int) =~= prefixes);
                proof {
                    lemma_extended_len(prefixes, parts);
                }
                assert(longer.len() == crate::shell_parse::command_texts(longer@).len());
                variants = longer;
            },
        }
        i += 1;
    }
    assert(all.take(i as int) =~= all);
    Ok(variants)
}

/// Once the first words have too many variants, so has the whole command.
proof fn lemma_variants_stay_none(words: Seq<Seq<char>>, n: int)
    requires
        0 <= n <= words.len(),
        command_variants(words.take(n)) is None,
    ensures
        command_variants(words) is None,
    decreases words.len() - n,
{
    if n == words.len() {
        assert(words.take(n) =~= words);
    } else {
        assert(words.take(n + 1).drop_last() =~= words.take(n));
        lemma_variants_stay_none(words, n + 1);
    }
}

/// A word and a command never expand to more variants than the bound.
pub proof fn expansions_are_bounded(word: Seq<char>, words: Seq<Seq<char>>)
    ensures
        word_variants(word) matches Some(variants) ==> variants.len() <= MAX_BRACE_EXPANSIONS,
        command_variants(words) matches Some(variants) ==> variants.len() <= MAX_BRACE_EXPANSIONS,
{
    lemma_pending_bounded(seq![word], Seq::empty());
    if words.len() > 0 {
        match (command_variants(words.drop_last()), word_variants(words.last())) {
            (Some(prefixes), Some(alternatives)) => {
                lemma_extended_len(prefixes, alternatives);
            },
            _ => {},
        }
    }
}

proof fn lemma_pending_bounded(pending: Seq<Seq<char>>, found: Seq<Seq<char>>)
    requires
        pending.len() + found.len() <= MAX_BRACE_EXPANSIONS,
    ensures
        expand_pending(pending, found) matches Some(variants) ==> variants.len()
            <= MAX_BRACE_EXPANSIONS,
    decreases total_weight(pending),
{
    if pending.len() > 0 {
        let word = pending.last();
        let rest = pending.drop_last();
        let (open, close, alternatives) = first_pair(word, 0, Seq::empty());
        lemma_weight_positive(word.len());
        lemma_replaced_is_lighter(word, rest);
        assert(pending =~= rest.push(word));
        match alternatives {
            Alternatives::Plain => {
                lemma_pending_bounded(rest, found.push(word));
            },
            Alternatives::TooMany => {},
            Alternatives::Of(parts) => {
                if found.len() + rest.len() + parts.len() <= MAX_BRACE_EXPANSIONS {
                    lemma_pending_bounded(rest + replaced(word, open, close, parts), found);
                }
            },
        }
    }
}

} // verus!
