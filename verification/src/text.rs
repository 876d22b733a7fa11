//! Patterns and terms that text is searched for, and texts given on the command
//! line or in files.
use vstd::prelude::*;

use crate::lines;
use crate::lines::lines_of;
use crate::numbers;
use crate::numbers::parse_usize;
use crate::strings;
use crate::strings::{chars_of, copy_strings, cut_string, debug_text, join, split_first, CharClass};

verus! {

/// A compiled regular expression.
#[verifier::external_type_specification]
#[verifier::external_body]
pub struct ExRegex(regex::Regex);

/// What a compiled expression was made of: its pattern, and whether it ignores
/// case.
pub uninterp spec fn regex_source(compiled: &regex::Regex) -> (Seq<char>, bool);

/// A regular expression. It is made here alone, so that what it was made of tells all
/// of it.
#[derive(Debug)]
pub struct Pattern {
    compiled: regex::Regex,
}

/// What an expression was made of: its pattern, and whether it ignores case.
pub closed spec fn pattern_source(pattern: Pattern) -> (Seq<char>, bool) {
    regex_source(&pattern.compiled)
}

/// Whether the expression with this source matches somewhere in a text.
pub uninterp spec fn regex_matches(source: (Seq<char>, bool), text: Seq<char>) -> bool;

/// How many matches the expression with this source has in a text, none
/// overlapping.
pub uninterp spec fn regex_count(source: (Seq<char>, bool), text: Seq<char>) -> usize;

/// The message with which a text is refused that is no expression.
pub uninterp spec fn regex_error(source: (Seq<char>, bool)) -> Option<Seq<char>>;

/// A text in lower case, by the Unicode rules.
pub uninterp spec fn unicode_lower(text: Seq<char>) -> Seq<char>;

/// Why a pattern is not compiled.
#[derive(Debug)]
pub enum RegexFault {
    /// It is no regular expression.
    Syntax { detail: String },
    /// It is one, and its automaton is too large.
    TooLarge { detail: String },
}

/// `regex::RegexBuilder::build` with `case_insensitive` set as given: it compiles
/// the pattern or refuses it. Whether the pattern is an expression, and with which
/// message it is refused if not, depends on these two alone. An expression can still
/// be too large; when, is not said here, because that limit counts bytes of memory.
#[verifier::external_body]
fn compile_regex(pattern: &str, ignore_case: bool) -> (compiled: Result<
    regex::Regex,
    RegexFault,
>)
    ensures
        match compiled {
            Ok(compiled) => regex_error((pattern@, ignore_case)) is None && regex_source(&compiled)
                == (pattern@, ignore_case),
            Err(RegexFault::Syntax { detail }) => regex_error((pattern@, ignore_case)) == Some(
                detail@,
            ),
            Err(RegexFault::TooLarge { detail }) => regex_error((pattern@, ignore_case)) is None,
        },
{
    match regex::RegexBuilder::new(pattern).case_insensitive(ignore_case).build() {
        Ok(compiled) => Ok(compiled),
        Err(regex::Error::Syntax(detail)) => Err(RegexFault::Syntax { detail }),
        Err(error) => Err(RegexFault::TooLarge { detail: error.to_string() }),
    }
}

/// `regex::Regex::is_match`: depends on what the expression was made of and on
/// the text alone.
#[verifier::external_body]
fn is_regex_match(compiled: &regex::Regex, text: &str) -> (found: bool)
    ensures
        found == regex_matches(regex_source(compiled), text@),
{
    compiled.is_match(text)
}

/// `regex::Regex::find_iter`, counted: depends on what the expression was made of
/// and on the text alone.
#[verifier::external_body]
fn count_regex_matches(compiled: &regex::Regex, text: &str) -> (count: usize)
    ensures
        count == regex_count(regex_source(compiled), text@),
{
    compiled.find_iter(text).count()
}

/// `regex::Regex::as_str`: the pattern that the expression was made of.
#[verifier::external_body]
fn regex_pattern(compiled: &regex::Regex) -> (pattern: String)
    ensures
        pattern@ == regex_source(compiled).0,
{
    compiled.as_str().to_owned()
}

impl Pattern {
    /// The expression of a pattern, or why there is none.
    pub fn new(pattern: &str, ignore_case: bool) -> (made: Result<Pattern, RegexFault>)
        ensures
            match made {
                Ok(made) => regex_error((pattern@, ignore_case)) is None && pattern_source(made)
                    == (pattern@, ignore_case),
                Err(RegexFault::Syntax { detail }) => regex_error((pattern@, ignore_case)) == Some(
                    detail@,
                ),
                // An expression is refused only where it is too large.
                Err(RegexFault::TooLarge { detail }) => regex_error(
                    (pattern@, ignore_case),
                ) is None,
            },
    {
        match compile_regex(pattern, ignore_case) {
            Ok(compiled) => Ok(Pattern { compiled }),
            Err(fault) => Err(fault),
        }
    }

    /// Whether it matches somewhere in a text.
    pub fn is_match(&self, text: &str) -> (found: bool)
        ensures
            found == regex_matches(pattern_source(*self), text@),
    {
        is_regex_match(&self.compiled, text)
    }

    /// How many matches it has in a text, none overlapping.
    pub fn count_matches(&self, text: &str) -> (count: usize)
        ensures
            count == regex_count(pattern_source(*self), text@),
    {
        count_regex_matches(&self.compiled, text)
    }

    /// The pattern that it was made of.
    pub fn as_text(&self) -> (text: String)
        ensures
            text@ == pattern_source(*self).0,
    {
        regex_pattern(&self.compiled)
    }
}

/// `str::to_lowercase`, which depends on the text alone.
#[verifier::external_body]
pub(crate) fn to_unicode_lower(text: &str) -> (lowered: String)
    ensures
        lowered@ == unicode_lower(text@),
{
    text.to_lowercase()
}

/// Whether a line has to hold all of the terms or one of them.
#[derive(Debug, Clone, Copy, PartialEq, Eq, Structural)]
pub enum TermMode {
    All,
    Any,
}

/// What is searched for.
pub enum TextMatcher {
    Literal { pattern: String, ignore_case: bool },
    Regex(Pattern),
    Terms { terms: Vec<String>, mode: TermMode, ignore_case: bool },
}

/// The model of what is searched for.
pub enum Matcher {
    Literal { pattern: Seq<char>, ignore_case: bool },
    Regex { source: (Seq<char>, bool) },
    Terms { terms: Seq<Seq<char>>, mode: TermMode, ignore_case: bool },
}

/// Whether a text holds a needle, with or without regard to case.
pub open spec fn holds(text: Seq<char>, needle: Seq<char>, ignore_case: bool) -> bool {
    if ignore_case {
        strings::contains_text(unicode_lower(text), unicode_lower(needle))
    } else {
        strings::contains_text(text, needle)
    }
}

/// How often the needle stands in the text from `from` on, none overlapping.
pub open spec fn occurrences(text: Seq<char>, needle: Seq<char>, from: int) -> nat
    decreases text.len() - from,
{
    if from < 0 || from >= text.len() || needle.len() == 0 {
        0
    } else if strings::occurs_at(text, needle, from) {
        1 + occurrences(text, needle, from + needle.len())
    } else {
        occurrences(text, needle, from + 1)
    }
}

impl Matcher {
    /// Whether the text has a match.
    pub open spec fn matches(self, text: Seq<char>) -> bool {
        match self {
            Matcher::Literal { pattern, ignore_case } => holds(text, pattern, ignore_case),
            Matcher::Regex { source } => regex_matches(source, text),
            Matcher::Terms { terms, mode, ignore_case } => match mode {
                TermMode::All => forall|i: int|
                    0 <= i < terms.len() ==> holds(text, #[trigger] terms[i], ignore_case),
                TermMode::Any => exists|i: int|
                    0 <= i < terms.len() && holds(text, #[trigger] terms[i], ignore_case),
            },
        }
    }

    /// How many matches the text has; for terms, how many of its lines match.
    pub open spec fn count(self, text: Seq<char>) -> nat {
        match self {
            Matcher::Literal { pattern, ignore_case } => if ignore_case {
                occurrences(unicode_lower(text), unicode_lower(pattern), 0)
            } else {
                occurrences(text, pattern, 0)
            },
            Matcher::Regex { source } => regex_count(source, text) as nat,
            Matcher::Terms { .. } => self.matching_lines(lines::text_lines(text)),
        }
    }

    /// How many of the lines match.
    pub open spec fn matching_lines(self, lines: Seq<Seq<char>>) -> nat
        decreases lines.len(),
    {
        if lines.len() == 0 {
            0
        } else {
            self.matching_lines(lines.drop_last()) + if self.matches(lines.last()) {
                1nat
            } else {
                0
            }
        }
    }

    /// How the search is named to its reader.
    pub open spec fn label(self) -> Seq<char> {
        match self {
            Matcher::Literal { pattern, .. } => strings::debug_quoted(pattern),
            Matcher::Regex { source } => strings::debug_quoted(source.0),
            Matcher::Terms { terms, mode, .. } => (match mode {
                TermMode::All => "all_terms("@,
                TermMode::Any => "any_terms("@,
            }) + strings::join_texts(terms, ","@) + ")"@,
        }
    }
}

impl View for TextMatcher {
    type V = Matcher;

    open spec fn view(&self) -> Matcher {
        match self {
            TextMatcher::Literal { pattern, ignore_case } => Matcher::Literal {
                pattern: pattern@,
                ignore_case: *ignore_case,
            },
            TextMatcher::Regex(compiled) => Matcher::Regex { source: pattern_source(*compiled) },
            TextMatcher::Terms { terms, mode, ignore_case } => Matcher::Terms {
                terms: strings::texts(terms@),
                mode: *mode,
                ignore_case: *ignore_case,
            },
        }
    }
}

fn text_holds(text: &str, needle: &str, ignore_case: bool) -> (held: bool)
    ensures
        held == holds(text@, needle@, ignore_case),
{
    if ignore_case {
        strings::contains(to_unicode_lower(text).as_str(), to_unicode_lower(needle).as_str())
    } else {
        strings::contains(text, needle)
    }
}

fn count_occurrences(text: &str, needle: &str) -> (count: usize)
    ensures
        count == occurrences(text@, needle@, 0),
{
    let chars = chars_of(text);
    let wanted = chars_of(needle);
    if wanted.len() == 0 {
        return 0;
    }
    let mut count: usize = 0;
    let mut at: usize = 0;
    while at < chars.len()
        invariant
            chars@ == text@,
            wanted@ == needle@,
            wanted.len() > 0,
            at <= chars.len(),
            count <= at,
            count + occurrences(text@, needle@, at as int) == occurrences(text@, needle@, 0),
        decreases chars.len() - at,
    {
        if strings::occurs_in_at(&chars, &wanted, at) {
            count += 1;
            at += wanted.len();
        } else {
            at += 1;
        }
    }
    count
}

impl TextMatcher {
    /// A search for a pattern, literal or a regular expression.
    pub fn new(pattern: &str, literal: bool, ignore_case: bool) -> (matcher: Result<
        TextMatcher,
        String,
    >)
        ensures
            match matcher {
                Ok(matcher) => if literal {
                    matcher@ == (Matcher::Literal { pattern: pattern@, ignore_case })
                } else {
                    &&& matcher@ == (Matcher::Regex { source: (pattern@, ignore_case) })
                    &&& regex_error((pattern@, ignore_case)) is None
                },
                // An expression is refused only where it is too large.
                Err(message) => {
                    &&& !literal
                    &&& ("invalid regex pattern: "@ + pattern@ + ": "@).is_prefix_of(message@)
                    &&& regex_error((pattern@, ignore_case)) matches Some(detail) ==> message@
                        == "invalid regex pattern: "@ + pattern@ + ": "@ + detail
                },
            },
    {
        if literal {
            Ok(TextMatcher::Literal { pattern: pattern.to_owned(), ignore_case })
        } else {
            match Pattern::new(pattern, ignore_case) {
                Ok(compiled) => Ok(TextMatcher::Regex(compiled)),
                Err(RegexFault::Syntax { detail }) | Err(RegexFault::TooLarge { detail }) => {
                    let head = "invalid regex pattern: ".to_owned().concat(pattern).concat(": ");
                    let message = head.clone().concat(detail.as_str());
                    assert(message@.subrange(0, head@.len() as int) =~= head@);
                    Err(message)
                },
            }
        }
    }

    /// A search for lines with terms.
    pub fn terms(terms: Vec<String>, mode: TermMode, ignore_case: bool) -> (matcher: TextMatcher)
        ensures
            matcher@ == (Matcher::Terms { terms: strings::texts(terms@), mode, ignore_case }),
    {
        TextMatcher::Terms { terms, mode, ignore_case }
    }

    /// Whether the text has a match.
    pub fn is_match(&self, text: &str) -> (found: bool)
        ensures
            found == self@.matches(text@),
    {
        match self {
            TextMatcher::Literal { pattern, ignore_case } => text_holds(
                text,
                pattern.as_str(),
                *ignore_case,
            ),
            TextMatcher::Regex(compiled) => compiled.is_match(text),
            TextMatcher::Terms { terms, mode, ignore_case } => {
                let ghost all = strings::texts(terms@);
                let any = *mode == TermMode::Any;
                let mut i: usize = 0;
                while i < terms.len()
                    invariant
                        i <= terms.len(),
                        all == strings::texts(terms@),
                        any == (*mode == TermMode::Any),
                        !any == (*mode == TermMode::All),
                        self@ == (Matcher::Terms {
                            terms: all,
                            mode: *mode,
                            ignore_case: *ignore_case,
                        }),
                        forall|k: int|
                            0 <= k < i ==> holds(text@, #[trigger] all[k], *ignore_case) != any,
                    decreases terms.len() - i,
                {
                    assert(all[i as int] == terms@[i as int]@);
                    if text_holds(text, terms[i].as_str(), *ignore_case) == any {
                        assert(holds(text@, all[i as int], *ignore_case) == any);
                        assert(self@->Terms_terms == all && self@->Terms_mode == *mode);
                        return any;
                    }
                    i += 1;
                }
                !any
            },
        }
    }

    /// How many matches the text has; for terms, how many of its lines match.
    pub fn count_matches(&self, text: &str) -> (count: usize)
        ensures
            count == self@.count(text@),
    {
        match self {
            TextMatcher::Literal { pattern, ignore_case } => if *ignore_case {
                count_occurrences(
                    to_unicode_lower(text).as_str(),
                    to_unicode_lower(pattern.as_str()).as_str(),
                )
            } else {
                count_occurrences(text, pattern.as_str())
            },
            TextMatcher::Regex(compiled) => compiled.count_matches(text),
            TextMatcher::Terms { .. } => {
                let lines = lines_of(text);
                self.count_matching_lines(&lines)
            },
        }
    }

    /// How many of the lines match.
    pub fn count_matching_lines(&self, lines: &[String]) -> (count: usize)
        ensures
            count == self@.matching_lines(strings::texts(lines@)),
    {
        let ghost all = strings::texts(lines@);
        let mut count: usize = 0;
        let mut i: usize = 0;
        while i < lines.len()
            invariant
                i <= lines.len(),
                all == strings::texts(lines@),
                count <= i,
                count == self@.matching_lines(all.take(i as int)),
            decreases lines.len() - i,
        {
            assert(all.take(i + 1).drop_last() =~= all.take(i as int));
            assert(all.take(i + 1).last() == lines@[i as int]@);
            if self.is_match(lines[i].as_str()) {
                count += 1;
            }
            i += 1;
        }
        assert(all.take(i as int) =~= all);
        count
    }

    /// How the search is named to its reader.
    pub fn label(&self) -> (label: String)
        ensures
            label@ == self@.label(),
    {
        match self {
            TextMatcher::Literal { pattern, .. } => debug_text(pattern.as_str()),
            TextMatcher::Regex(compiled) => debug_text(compiled.as_text().as_str()),
            TextMatcher::Terms { terms, mode, .. } => {
                let head = match mode {
                    TermMode::All => "all_terms(",
                    TermMode::Any => "any_terms(",
                };
                head.to_owned().concat(join(terms, ",").as_str()).concat(")")
            },
        }
    }
}

/// A text without a leading byte-order mark.
pub open spec fn without_bom(text: Seq<char>) -> Seq<char> {
    if text.len() > 0 && text[0] == '\u{feff}' {
        text.skip(1)
    } else {
        text
    }
}

/// A text without a leading byte-order mark.
pub fn strip_utf8_bom(value: &str) -> (rest: String)
    ensures
        rest@ == without_bom(value@),
{
    let chars = chars_of(value);
    if chars.len() > 0 && chars[0] == '\u{feff}' {
        cut_string(&chars, 1, chars.len())
    } else {
        value.to_owned()
    }
}

/// A text without the line ends at its end.
pub fn trim_trailing_line_endings(value: &str) -> (trimmed: String)
    ensures
        trimmed@ == strings::trim_end(value@, CharClass::LineEnd),
{
    let chars = chars_of(value);
    strings::string_of(&strings::trim_end_of(&chars, CharClass::LineEnd))
}

/// The terms in a file: its lines without the carriage returns at their end,
/// empty ones left out.
pub open spec fn file_terms(lines: Seq<Seq<char>>) -> Seq<Seq<char>>
    decreases lines.len(),
{
    if lines.len() == 0 {
        Seq::empty()
    } else {
        let before = file_terms(lines.drop_last());
        let line = strings::trim_end(lines.last(), CharClass::Only('\r'));
        if line.len() > 0 {
            before.push(line)
        } else {
            before
        }
    }
}

/// The terms in the first `n` files, after those given.
pub open spec fn all_terms(terms: Seq<Seq<char>>, files: Seq<Seq<char>>, n: nat) -> Seq<Seq<char>>
    decreases n,
{
    if n == 0 || n > files.len() {
        terms
    } else {
        all_terms(terms, files, (n - 1) as nat) + file_terms(
            lines::text_lines(without_bom(files[n - 1])),
        )
    }
}

fn push_file_terms(collected: &mut Vec<String>, text: &str)
    ensures
        strings::texts(final(collected)@) == strings::texts(old(collected)@) + file_terms(
            lines::text_lines(without_bom(text@)),
        ),
{
    let lines = lines_of(strip_utf8_bom(text).as_str());
    let ghost all = strings::texts(lines@);
    let ghost before = strings::texts(collected@);
    let mut i: usize = 0;
    assert(all.take(0) =~= Seq::empty());
    assert(before + file_terms(all.take(0)) =~= before);
    while i < lines.len()
        invariant
            i <= lines.len(),
            all == strings::texts(lines@),
            strings::texts(collected@) == before + file_terms(all.take(i as int)),
        decreases lines.len() - i,
    {
        assert(all.take(i + 1).drop_last() =~= all.take(i as int));
        assert(all.take(i + 1).last() == lines@[i as int]@);
        let chars = chars_of(lines[i].as_str());
        let line = strings::trim_end_of(&chars, CharClass::Only('\r'));
        if line.len() > 0 {
            let ghost sofar = collected@;
            let term = strings::string_of(&line);
            collected.push(term);
            assert(strings::texts(collected@) =~= strings::texts(sofar).push(term@));
            assert(before + file_terms(all.take(i + 1)) =~= (before + file_terms(
                all.take(i as int),
            )).push(term@));
        }
        i += 1;
    }
    assert(all.take(i as int) =~= all);
}

/// The terms given directly and those in the texts of term files; nothing where
/// there is none.
pub fn collect_terms(terms: &[String], files: &[String]) -> (collected: Result<
    Vec<String>,
    &'static str,
>)
    ensures
        ({
            let all = all_terms(strings::texts(terms@), strings::texts(files@), files@.len());
            match collected {
                Ok(collected) => strings::texts(collected@) == all && all.len() > 0,
                Err(message) => all.len() == 0 && message@
                    == "grep-terms requires at least one --term or --term-file entry"@,
            }
        }),
{
    let ghost given = strings::texts(terms@);
    let ghost texts = strings::texts(files@);
    let mut collected = copy_strings(terms);
    let mut i: usize = 0;
    while i < files.len()
        invariant
            i <= files.len(),
            given == strings::texts(terms@),
            texts == strings::texts(files@),
            strings::texts(collected@) == all_terms(given, texts, i as nat),
        decreases files.len() - i,
    {
        assert(texts[i as int] == files@[i as int]@);
        push_file_terms(&mut collected, files[i].as_str());
        i += 1;
    }
    assert(strings::texts(collected@).len() == collected@.len());
    if collected.len() == 0 {
        Err("grep-terms requires at least one --term or --term-file entry")
    } else {
        Ok(collected)
    }
}

/// The mode that the flags ask for; both at once contradict each other.
pub fn resolve_term_mode(mode: TermMode, any: bool, all: bool) -> (resolved: Result<
    TermMode,
    &'static str,
>)
    ensures
        match resolved {
            Ok(resolved) => !(any && all) && resolved == (if any {
                TermMode::Any
            } else if all {
                TermMode::All
            } else {
                mode
            }),
            Err(message) => any && all && message@
                == "grep-terms accepts only one of --any/--or or --all/--and"@,
        },
{
    if any && all {
        Err("grep-terms accepts only one of --any/--or or --all/--and")
    } else if any {
        Ok(TermMode::Any)
    } else if all {
        Ok(TermMode::All)
    } else {
        Ok(mode)
    }
}

/// Where a text is to come from.
#[derive(Debug, Clone, Copy, PartialEq, Eq, Structural)]
pub enum TextSource {
    Inline,
    File,
}

/// The one source of a text that was given.
pub fn choose_text_source(label: &str, inline: bool, file: bool) -> (source: Result<
    TextSource,
    String,
>)
    ensures
        match source {
            Ok(TextSource::Inline) => inline && !file,
            Ok(TextSource::File) => !inline && file,
            Err(message) => inline == file && message@ == label@ + (if inline {
                " accepts either an inline value or a file, not both"@
            } else {
                " requires an inline value or file"@
            }),
        },
{
    if inline && file {
        Err(label.to_owned().concat(" accepts either an inline value or a file, not both"))
    } else if inline {
        Ok(TextSource::Inline)
    } else if file {
        Ok(TextSource::File)
    } else {
        Err(label.to_owned().concat(" requires an inline value or file"))
    }
}

/// A text read from a file, without a byte-order mark, and without the line ends
/// at its end where those are to go.
pub fn text_from_file(text: &str, trim_terminal_newlines: bool) -> (cleaned: String)
    ensures
        cleaned@ == without_bom(
            if trim_terminal_newlines {
                strings::trim_end(text@, CharClass::LineEnd)
            } else {
                text@
            },
        ),
{
    if trim_terminal_newlines {
        strip_utf8_bom(trim_trailing_line_endings(text).as_str())
    } else {
        strip_utf8_bom(text)
    }
}

/// Why a range of lines is refused.
#[derive(Debug, Clone, Copy, PartialEq, Eq, Structural)]
pub enum RangeFault {
    NoColon,
    OpenEnd,
    BadStart,
    BadEnd,
    LineZero,
    Inverted,
}

/// The lines that a `START:END` text names.
pub open spec fn line_range(range: Seq<char>) -> Result<(int, int), RangeFault> {
    match strings::split_at_first(range, CharClass::Only(':')) {
        None => Err(RangeFault::NoColon),
        Some((start, end)) => {
            let first = numbers::unsigned_value(start, usize::MAX as int);
            let last = numbers::unsigned_value(end, usize::MAX as int);
            if start.len() == 0 || end.len() == 0 {
                Err(RangeFault::OpenEnd)
            } else if first is None {
                Err(RangeFault::BadStart)
            } else if last is None {
                Err(RangeFault::BadEnd)
            } else if first->0 == 0 || last->0 == 0 {
                Err(RangeFault::LineZero)
            } else if last->0 < first->0 {
                Err(RangeFault::Inverted)
            } else {
                Ok((first->0, last->0))
            }
        },
    }
}

/// The lines that a `START:END` text names, both counted from 1.
pub fn parse_line_range(range: &str) -> (lines: Result<(usize, usize), RangeFault>)
    ensures
        match lines {
            Ok((start, end)) => line_range(range@) == Ok::<(int, int), RangeFault>(
                (start as int, end as int),
            ) && 1 <= start <= end,
            Err(fault) => line_range(range@) == Err::<(int, int), RangeFault>(fault),
        },
{
    match split_first(range, CharClass::Only(':')) {
        None => Err(RangeFault::NoColon),
        Some((start, end)) => {
            if start.as_str().is_empty() || end.as_str().is_empty() {
                return Err(RangeFault::OpenEnd);
            }
            let first = match parse_usize(start.as_str()) {
                Some(first) => first,
                None => {
                    return Err(RangeFault::BadStart);
                },
            };
            let last = match parse_usize(end.as_str()) {
                Some(last) => last,
                None => {
                    return Err(RangeFault::BadEnd);
                },
            };
            proof {
                numbers::lemma_unsigned_value_bounds(start@, usize::MAX as int);
                numbers::lemma_unsigned_value_bounds(end@, usize::MAX as int);
            }
            if first == 0 || last == 0 {
                Err(RangeFault::LineZero)
            } else if last < first {
                Err(RangeFault::Inverted)
            } else {
                Ok((first, last))
            }
        },
    }
}

/// The two sides of the first colon of a range.
pub open spec fn range_sides(range: Seq<char>) -> (Seq<char>, Seq<char>) {
    match strings::split_at_first(range, CharClass::Only(':')) {
        Some(sides) => sides,
        None => (range, Seq::empty()),
    }
}

impl RangeFault {
    pub open spec fn text(self, range: Seq<char>) -> Seq<char> {
        match self {
            RangeFault::NoColon => "slice --range must use START:END line numbers"@,
            RangeFault::OpenEnd => "slice --range requires both START and END"@,
            RangeFault::BadStart => "invalid slice --range start: "@ + range_sides(range).0,
            RangeFault::BadEnd => "invalid slice --range end: "@ + range_sides(range).1,
            RangeFault::LineZero => "slice --range is 1-based; line 0 is invalid"@,
            RangeFault::Inverted => "slice --range end must be greater than or equal to start"@,
        }
    }

    /// What is said of a range that is refused.
    pub fn message(self, range: &str) -> (message: String)
        ensures
            message@ == self.text(range@),
    {
        let (start, end) = match split_first(range, CharClass::Only(':')) {
            Some(sides) => sides,
            None => {
                let empty = String::new();
                assert(empty@ =~= Seq::empty());
                (range.to_owned(), empty)
            },
        };
        match self {
            RangeFault::NoColon => "slice --range must use START:END line numbers".to_owned(),
            RangeFault::OpenEnd => "slice --range requires both START and END".to_owned(),
            RangeFault::BadStart => "invalid slice --range start: ".to_owned().concat(
                start.as_str(),
            ),
            RangeFault::BadEnd => "invalid slice --range end: ".to_owned().concat(end.as_str()),
            RangeFault::LineZero => "slice --range is 1-based; line 0 is invalid".to_owned(),
            RangeFault::Inverted =>
                "slice --range end must be greater than or equal to start".to_owned(),
        }
    }
}

/// A search that ignores case sees a line and its terms only through their lower-case
/// forms: replacing the line, or any of the terms, by another with the same lower-case
/// form never changes whether the line matches.
pub proof fn ignoring_case_sees_lower_case_alone(
    a: Seq<char>,
    b: Seq<char>,
    first: Seq<Seq<char>>,
    second: Seq<Seq<char>>,
    mode: TermMode,
)
    requires
        unicode_lower(a) == unicode_lower(b),
        first.len() == second.len(),
        forall|i: int|
            0 <= i < first.len() ==> unicode_lower(#[trigger] first[i]) == unicode_lower(second[i]),
    ensures
        (Matcher::Terms { terms: first, mode, ignore_case: true }).matches(a) == (Matcher::Terms {
            terms: second,
            mode,
            ignore_case: true,
        }).matches(b),
{
    lemma_terms(a, first, true);
    lemma_terms(b, second, true);
    if mode == TermMode::All {
        if all_held(a, first, true) {
            assert forall|i: int| 0 <= i < second.len() implies holds(
                b,
                #[trigger] second[i],
                true,
            ) by {
                assert(holds(a, first[i], true));
            }
        }
        if all_held(b, second, true) {
            assert forall|i: int| 0 <= i < first.len() implies holds(
                a,
                #[trigger] first[i],
                true,
            ) by {
                assert(holds(b, second[i], true));
            }
        }
    } else {
        if some_held(a, first, true) {
            let i = choose|i: int| 0 <= i < first.len() && holds(a, #[trigger] first[i], true);
            assert(holds(b, second[i], true));
        }
        if some_held(b, second, true) {
            let i = choose|i: int| 0 <= i < second.len() && holds(b, #[trigger] second[i], true);
            assert(holds(a, first[i], true));
        }
    }
}

spec fn all_held(text: Seq<char>, terms: Seq<Seq<char>>, ignore_case: bool) -> bool {
    forall|i: int| 0 <= i < terms.len() ==> holds(text, #[trigger] terms[i], ignore_case)
}

spec fn some_held(text: Seq<char>, terms: Seq<Seq<char>>, ignore_case: bool) -> bool {
    exists|i: int| 0 <= i < terms.len() && holds(text, #[trigger] terms[i], ignore_case)
}

proof fn lemma_terms(text: Seq<char>, terms: Seq<Seq<char>>, ignore_case: bool)
    ensures
        (Matcher::Terms { terms, mode: TermMode::All, ignore_case }).matches(text) == all_held(
            text,
            terms,
            ignore_case,
        ),
        (Matcher::Terms { terms, mode: TermMode::Any, ignore_case }).matches(text) == some_held(
            text,
            terms,
            ignore_case,
        ),
{
    let all = Matcher::Terms { terms, mode: TermMode::All, ignore_case };
    let any = Matcher::Terms { terms, mode: TermMode::Any, ignore_case };
    if all.matches(text) {
        assert(all_held(text, terms, ignore_case));
    }
    if all_held(text, terms, ignore_case) {
        assert(all.matches(text));
    }
    if any.matches(text) {
        assert(some_held(text, terms, ignore_case));
    }
    if some_held(text, terms, ignore_case) {
        let i = choose|i: int| 0 <= i < terms.len() && holds(text, #[trigger] terms[i], ignore_case);
        assert(any->Terms_terms[i] == terms[i]);
        assert(any.matches(text));
    }
}

/// The form of a line or a term in which a search compares it.
pub open spec fn compared_form(text: Seq<char>, ignore_case: bool) -> Seq<char> {
    if ignore_case {
        unicode_lower(text)
    } else {
        text
    }
}

/// Whether a text is another one with something, or nothing, before and behind it.
pub open spec fn is_around(text: Seq<char>, part: Seq<char>) -> bool {
    exists|before: Seq<char>, behind: Seq<char>| text == #[trigger] (before + part + behind)
}

/// A line matches a search for all terms if and only if it holds each of them, and a
/// search for any term if and only if it holds one; both sides of the comparison are
/// lower-cased where case is ignored, and neither is where it is not.
pub proof fn terms_are_held(text: Seq<char>, terms: Seq<Seq<char>>, ignore_case: bool)
    ensures
        (Matcher::Terms { terms, mode: TermMode::All, ignore_case }).matches(text) <==> (forall|
            i: int,
        |
            0 <= i < terms.len() ==> is_around(
                compared_form(text, ignore_case),
                compared_form(#[trigger] terms[i], ignore_case),
            )),
        (Matcher::Terms { terms, mode: TermMode::Any, ignore_case }).matches(text) <==> (exists|
            i: int,
        |
            0 <= i < terms.len() && is_around(
                compared_form(text, ignore_case),
                compared_form(#[trigger] terms[i], ignore_case),
            )),
{
    assert forall|i: int| 0 <= i < terms.len() implies #[trigger] holds(
        text,
        terms[i],
        ignore_case,
    ) == is_around(
        compared_form(text, ignore_case),
        compared_form(terms[i], ignore_case),
    ) by {
        strings::holding_is_a_split(
            compared_form(text, ignore_case),
            compared_form(terms[i], ignore_case),
        );
    }
    lemma_terms(text, terms, ignore_case);
    if all_held(text, terms, ignore_case) {
        assert forall|i: int| 0 <= i < terms.len() implies is_around(
            compared_form(text, ignore_case),
            compared_form(#[trigger] terms[i], ignore_case),
        ) by {
            assert(holds(text, terms[i], ignore_case));
        }
    }
    if some_held(text, terms, ignore_case) {
        let i = choose|i: int| 0 <= i < terms.len() && holds(text, #[trigger] terms[i], ignore_case);
        assert(is_around(
            compared_form(text, ignore_case),
            compared_form(terms[i], ignore_case),
        ));
    }
    if exists|i: int|
        0 <= i < terms.len() && is_around(
            compared_form(text, ignore_case),
            compared_form(#[trigger] terms[i], ignore_case),
        ) {
        let i = choose|i: int|
            0 <= i < terms.len() && is_around(
                compared_form(text, ignore_case),
                compared_form(#[trigger] terms[i], ignore_case),
            );
        assert(holds(text, terms[i], ignore_case));
    }
}

/// A search for all of two lists of terms finds what both of the searches find, one for
/// any of them what either finds; for a single term the two are one, and are a search
/// for that literal.
pub proof fn term_lists_combine(
    text: Seq<char>,
    first: Seq<Seq<char>>,
    second: Seq<Seq<char>>,
    ignore_case: bool,
)
    ensures
        (Matcher::Terms { terms: first + second, mode: TermMode::All, ignore_case }).matches(text)
            == ((Matcher::Terms { terms: first, mode: TermMode::All, ignore_case }).matches(text) && (
        Matcher::Terms { terms: second, mode: TermMode::All, ignore_case }).matches(text)),
        (Matcher::Terms { terms: first + second, mode: TermMode::Any, ignore_case }).matches(text)
            == ((Matcher::Terms { terms: first, mode: TermMode::Any, ignore_case }).matches(text) || (
        Matcher::Terms { terms: second, mode: TermMode::Any, ignore_case }).matches(text)),
        forall|term: Seq<char>, mode: TermMode|
            (#[trigger] (Matcher::Terms { terms: seq![term], mode, ignore_case }).matches(text)) == (
            Matcher::Literal { pattern: term, ignore_case }).matches(text),
{
    let both = first + second;
    lemma_terms(text, first, ignore_case);
    lemma_terms(text, second, ignore_case);
    lemma_terms(text, both, ignore_case);
    assert forall|i: int| 0 <= i < both.len() implies #[trigger] both[i] == if i < first.len() {
        first[i]
    } else {
        second[i - first.len()]
    } by {}
    assert forall|i: int| 0 <= i < first.len() implies #[trigger] first[i] == both[i] by {}
    assert forall|i: int| 0 <= i < second.len() implies #[trigger] second[i] == both[first.len()
        + i] by {}
    assert forall|term: Seq<char>, mode: TermMode|
        (#[trigger] (Matcher::Terms { terms: seq![term], mode, ignore_case }).matches(text)) == (
        Matcher::Literal { pattern: term, ignore_case }).matches(text) by {
        let one = seq![term];
        assert(one[0] == term);
        lemma_terms(text, one, ignore_case);
        if holds(text, term, ignore_case) {
            assert(some_held(text, one, ignore_case));
            assert(all_held(text, one, ignore_case));
        }
    }
}

/// A literal is counted in a text if and only if the text holds it; and with its
/// counted occurrences taken out, the text is shorter by exactly their lengths.
pub proof fn literals_are_counted_where_they_stand(text: Seq<char>, needle: Seq<char>)
    requires
        needle.len() > 0,
    ensures
        ({
            let matcher = Matcher::Literal { pattern: needle, ignore_case: false };
            &&& (matcher.count(text) > 0) == matcher.matches(text)
            &&& strings::replaced(text, needle, Seq::empty()).len() + matcher.count(text)
                * needle.len() == text.len()
        }),
{
    lemma_occurrences(text, needle, 0);
    if strings::contains_text(text, needle) {
        let at = choose|at: int| strings::occurs_at(text, needle, at);
        assert(strings::occurs_at(text, needle, at));
    }
}

proof fn lemma_occurrences(text: Seq<char>, needle: Seq<char>, from: int)
    requires
        needle.len() > 0,
        0 <= from <= text.len(),
    ensures
        strings::replaced_from(text, needle, Seq::empty(), from).len() + occurrences(
            text,
            needle,
            from,
        ) * needle.len() == text.len() - from,
        (occurrences(text, needle, from) > 0) == (exists|at: int|
            from <= at && strings::occurs_at(text, needle, at)),
    decreases text.len() - from,
{
    if from < text.len() {
        if strings::occurs_at(text, needle, from) {
            lemma_occurrences(text, needle, from + needle.len());
            let rest = occurrences(text, needle, from + needle.len());
            assert((1 + rest) * needle.len() == needle.len() + rest * needle.len())
                by (nonlinear_arith);
        } else {
            lemma_occurrences(text, needle, from + 1);
        }
    } else {
        assert(occurrences(text, needle, from) * needle.len() == 0) by (nonlinear_arith)
            requires
                occurrences(text, needle, from) == 0,
        ;
    }
}

/// The terms of a file are its lines that are not empty, in order, each without the
/// carriage returns at its end; those of several files follow each other.
pub proof fn terms_are_the_lines_of_their_files(a: Seq<Seq<char>>, b: Seq<Seq<char>>)
    ensures
        file_terms(a + b) == file_terms(a) + file_terms(b),
        forall|line: Seq<char>|
            line.len() > 0 && line.last() != '\r' ==> #[trigger] file_terms(seq![line]) == seq![
                line,
            ],
        forall|line: Seq<char>|
            line.len() > 0 && line.last() != '\r' ==> #[trigger] file_terms(seq![line.push('\r')])
                == seq![line],
        file_terms(seq![Seq::<char>::empty()]).len() == 0,
    decreases b.len(),
{
    if b.len() > 0 {
        assert((a + b).drop_last() =~= a + b.drop_last());
        terms_are_the_lines_of_their_files(a, b.drop_last());
        assert(file_terms(a + b) =~= file_terms(a) + file_terms(b));
    } else {
        assert(a + b =~= a);
        assert(file_terms(a) + file_terms(b) =~= file_terms(a));
    }
    assert(file_terms(Seq::empty()) =~= Seq::empty());
    let ends = CharClass::Only('\r');
    assert forall|line: Seq<char>| line.len() > 0 && line.last() != '\r' implies
        #[trigger] file_terms(seq![line]) == seq![line] by {
        assert(seq![line].drop_last() =~= Seq::empty());
        assert(strings::trim_end(line, ends) =~= line);
        assert(Seq::<Seq<char>>::empty().push(line) =~= seq![line]);
    }
    assert forall|line: Seq<char>| line.len() > 0 && line.last() != '\r' implies
        #[trigger] file_terms(seq![line.push('\r')]) == seq![line] by {
        let ended = line.push('\r');
        assert(seq![ended].drop_last() =~= Seq::empty());
        assert(seq![ended].last() == ended);
        assert(strings::rskip_class(ended, ends, line.len() as int) == line.len()) by {
            assert(ended[line.len() - 1] == line.last());
        }
        assert(strings::rskip_class(ended, ends, ended.len() as int) == line.len());
        assert(strings::trim_end(ended, ends) =~= line);
        assert(Seq::<Seq<char>>::empty().push(line) =~= seq![line]);
    }
    let blank = seq![Seq::<char>::empty()];
    assert(blank.drop_last() =~= Seq::empty());
    assert(strings::trim_end(blank.last(), ends).len() == 0);
}

} // verus!
