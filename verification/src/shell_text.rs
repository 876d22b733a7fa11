//! Shell constructs whose bodies are data: line continuations, here-documents
//! and PowerShell here-strings are taken out of a payload before it is split
//! into commands.
use vstd::prelude::*;

use crate::strings;
use crate::strings::{
    char_in_class, chars_of, cut, cut_string, find_class_from, occurs_in_at, same_chars, string_of,
    trim_end_of, trim_start_of, CharClass,
};

verus! {

/// Which quotes the scan of a shell text stands in.
#[derive(Debug, Clone, Copy, PartialEq, Eq, Structural)]
pub enum ShellQuote {
    Unquoted,
    Single,
    Double,
}

/// The text from `from` on with every leftmost occurrence of `needle` taken
/// out, occurrences not overlapping.
pub open spec fn without_needle(text: Seq<char>, needle: Seq<char>, from: int) -> Seq<char>
    decreases text.len() - from,
{
    if from < 0 || from >= text.len() {
        Seq::empty()
    } else if needle.len() > 0 && strings::occurs_at(text, needle, from) {
        without_needle(text, needle, from + needle.len())
    } else {
        seq![text[from]] + without_needle(text, needle, from + 1)
    }
}

/// A backslash before a line end, with or without a carriage return, and that
/// line end disappear.
pub open spec fn joined_lines(text: Seq<char>) -> Seq<char> {
    without_needle(without_needle(text, "\\\r\n"@, 0), "\\\n"@, 0)
}

/// One past the end of the line that starts at `from`, its line feed included.
pub open spec fn line_end(text: Seq<char>, from: int) -> int {
    let at = strings::find_class(text, CharClass::Only('\n'), from);
    if at < text.len() {
        at + 1
    } else {
        at
    }
}

/// The quote character that opens a here-string at the end of the line, when
/// the scan from `i` in the given quotes meets one.
pub open spec fn here_string_quote(line: Seq<char>, quote: ShellQuote, i: int) -> Option<char>
    decreases line.len() - i + 1,
{
    if i < 0 || i >= line.len() {
        None
    } else {
        match quote {
            ShellQuote::Unquoted => if line[i] == '#' {
                None
            } else if line[i] == '\'' {
                here_string_quote(line, ShellQuote::Single, i + 1)
            } else if line[i] == '"' {
                here_string_quote(line, ShellQuote::Double, i + 1)
            } else if line[i] == '@' && i + 1 < line.len() && (line[i + 1] == '\'' || line[i + 1]
                == '"') && strings::trim(line.subrange(i + 2, line.len() as int)).len() == 0 {
                Some(line[i + 1])
            } else if line[i] == '`' {
                here_string_quote(line, quote, i + 2)
            } else {
                here_string_quote(line, quote, i + 1)
            },
            ShellQuote::Single => if line[i] == '\'' {
                if i + 1 < line.len() && line[i + 1] == '\'' {
                    here_string_quote(line, quote, i + 2)
                } else {
                    here_string_quote(line, ShellQuote::Unquoted, i + 1)
                }
            } else {
                here_string_quote(line, quote, i + 1)
            },
            ShellQuote::Double => if line[i] == '"' {
                here_string_quote(line, ShellQuote::Unquoted, i + 1)
            } else if line[i] == '`' {
                here_string_quote(line, quote, i + 2)
            } else {
                here_string_quote(line, quote, i + 1)
            },
        }
    }
}

/// The line that closes the here-string opened at the end of `line`, if one is.
pub open spec fn here_string_close(line: Seq<char>) -> Option<Seq<char>> {
    match here_string_quote(line, ShellQuote::Unquoted, 0) {
        Some(quote) => Some(seq![quote, '@']),
        None => None,
    }
}

/// The start of the first line from `from` on that reads `wanted` once its line
/// end is dropped, and, with `strip_tabs`, its leading tabs; the length of the
/// text if there is none.
pub open spec fn find_line(text: Seq<char>, from: int, wanted: Seq<char>, strip_tabs: bool) -> int
    decreases text.len() - from,
{
    if from < 0 || from >= text.len() {
        text.len() as int
    } else {
        proof {
            strings::lemma_find_class_bounds(text, CharClass::Only('\n'), from);
        }
        let end = line_end(text, from);
        if line_reads(text.subrange(from, end), wanted, strip_tabs) {
            from
        } else {
            find_line(text, end, wanted, strip_tabs)
        }
    }
}

pub open spec fn line_reads(line: Seq<char>, wanted: Seq<char>, strip_tabs: bool) -> bool {
    let bare = strings::trim_end(line, CharClass::LineEnd);
    wanted == if strip_tabs {
        strings::trim_start(bare, CharClass::Only('\t'))
    } else {
        bare
    }
}

/// The text from `from` on without the bodies of its here-strings; the opening
/// and closing lines stay.
pub open spec fn without_here_strings(text: Seq<char>, from: int) -> Seq<char>
    decreases text.len() - from,
{
    if from < 0 || from >= text.len() {
        Seq::empty()
    } else {
        proof {
            strings::lemma_find_class_bounds(text, CharClass::Only('\n'), from);
        }
        let end = line_end(text, from);
        let line = text.subrange(from, end);
        match here_string_close(strings::trim_end(strings::trim_end(line, CharClass::LineEnd), CharClass::Space)) {
            None => line + without_here_strings(text, end),
            Some(close) => {
                proof {
                    lemma_find_line_bounds(text, end, close, false);
                }
                let close_at = find_line(text, end, close, false);
                if close_at < text.len() {
                    proof {
                        strings::lemma_find_class_bounds(text, CharClass::Only('\n'), close_at);
                    }
                    let close_end = line_end(text, close_at);
                    line + text.subrange(close_at, close_end) + without_here_strings(
                        text,
                        close_end,
                    )
                } else {
                    line
                }
            },
        }
    }
}

/// The end and the text of the here-document delimiter word read from `i` on in
/// the given quotes, after `read`.
pub open spec fn delimiter_word(
    line: Seq<char>,
    quote: ShellQuote,
    i: int,
    read: Seq<char>,
) -> (int, Seq<char>)
    decreases line.len() - i,
{
    if i < 0 || i >= line.len() {
        (i, read)
    } else if quote == ShellQuote::Unquoted && line[i] == '\'' {
        delimiter_word(line, ShellQuote::Single, i + 1, read)
    } else if quote == ShellQuote::Unquoted && line[i] == '"' {
        delimiter_word(line, ShellQuote::Double, i + 1, read)
    } else if quote == ShellQuote::Single && line[i] == '\'' || quote == ShellQuote::Double
        && line[i] == '"' {
        delimiter_word(line, ShellQuote::Unquoted, i + 1, read)
    } else if quote == ShellQuote::Unquoted && ends_delimiter(line[i]) {
        (i, read)
    } else {
        delimiter_word(line, quote, i + 1, read.push(line[i]))
    }
}

pub open spec fn ends_delimiter(c: char) -> bool {
    strings::is_space(c) || c == ';' || c == '&' || c == '|'
}

/// Where the delimiter word of a `<<` at `i` starts, and whether the operator is
/// `<<-`.
pub open spec fn delimiter_start(line: Seq<char>, i: int) -> (int, bool) {
    let tabs = i + 2 < line.len() && line[i + 2] == '-';
    let from = if tabs {
        i + 3
    } else {
        i + 2
    };
    (strings::skip_class(line, CharClass::Space, from), tabs)
}

/// The here-document delimiters that the line announces from `i` on, each with
/// whether its body lines lose leading tabs, and the quotes at the end of the
/// line.
pub open spec fn line_delimiters(
    line: Seq<char>,
    quote: ShellQuote,
    i: int,
    word_started: bool,
) -> (Seq<(Seq<char>, bool)>, ShellQuote)
    decreases line.len() - i,
{
    if i < 0 || i + 1 >= line.len() {
        (Seq::empty(), quote)
    } else {
        match quote {
            ShellQuote::Single => line_delimiters(
                line,
                if line[i] == '\'' {
                    ShellQuote::Unquoted
                } else {
                    quote
                },
                i + 1,
                word_started,
            ),
            ShellQuote::Double => line_delimiters(
                line,
                if line[i] == '"' {
                    ShellQuote::Unquoted
                } else {
                    quote
                },
                i + 1,
                word_started,
            ),
            ShellQuote::Unquoted => if line[i] == '\'' {
                line_delimiters(line, ShellQuote::Single, i + 1, true)
            } else if line[i] == '"' {
                line_delimiters(line, ShellQuote::Double, i + 1, true)
            } else if line[i] == '#' && !word_started {
                (Seq::empty(), quote)
            } else if line[i] == '<' && line[i + 1] == '<' {
                if i + 2 < line.len() && line[i + 2] == '<' {
                    line_delimiters(line, quote, i + 3, word_started)
                } else {
                    let (start, tabs) = delimiter_start(line, i);
                    let (end, word) = delimiter_word(line, ShellQuote::Unquoted, start, Seq::empty());
                    proof {
                        lemma_delimiter_start_bounds(line, i);
                        lemma_delimiter_word_bounds(
                            line,
                            ShellQuote::Unquoted,
                            start,
                            Seq::empty(),
                        );
                    }
                    let rest = line_delimiters(line, quote, end, false);
                    if word.len() > 0 {
                        (seq![(word, tabs)] + rest.0, rest.1)
                    } else {
                        rest
                    }
                }
            } else {
                line_delimiters(
                    line,
                    quote,
                    i + 1,
                    !(strings::is_space(line[i]) || line[i] == ';' || line[i] == '&' || line[i] == '|'
                        || line[i] == '(' || line[i] == ')'),
                )
            },
        }
    }
}

/// Where the text goes on once the bodies of the given here-documents have been
/// passed, each up to and with its delimiter line.
pub open spec fn past_bodies(text: Seq<char>, from: int, delimiters: Seq<(Seq<char>, bool)>) -> int
    decreases delimiters.len(),
{
    if delimiters.len() == 0 {
        from
    } else {
        let at = find_line(text, from, delimiters[0].0, delimiters[0].1);
        past_bodies(
            text,
            if at < text.len() {
                line_end(text, at)
            } else {
                at
            },
            delimiters.drop_first(),
        )
    }
}

/// The text from `from` on without its here-document bodies and their delimiter
/// lines, read on in the given quotes.
pub open spec fn without_heredocs(text: Seq<char>, from: int, quote: ShellQuote) -> Seq<char>
    decreases text.len() - from,
{
    if from < 0 || from >= text.len() {
        Seq::empty()
    } else {
        proof {
            strings::lemma_find_class_bounds(text, CharClass::Only('\n'), from);
        }
        let end = line_end(text, from);
        let line = text.subrange(from, end);
        let (delimiters, after) = line_delimiters(line, quote, 0, false);
        proof {
            lemma_past_bodies_bounds(text, end, delimiters);
        }
        line + without_heredocs(text, past_bodies(text, end, delimiters), after)
    }
}

pub proof fn lemma_find_line_bounds(text: Seq<char>, from: int, wanted: Seq<char>, strip_tabs: bool)
    requires
        0 <= from <= text.len(),
    ensures
        from <= find_line(text, from, wanted, strip_tabs) <= text.len(),
    decreases text.len() - from,
{
    if from < text.len() {
        strings::lemma_find_class_bounds(text, CharClass::Only('\n'), from);
        let end = line_end(text, from);
        if !line_reads(text.subrange(from, end), wanted, strip_tabs) {
            lemma_find_line_bounds(text, end, wanted, strip_tabs);
        }
    }
}

pub proof fn lemma_past_bodies_bounds(
    text: Seq<char>,
    from: int,
    delimiters: Seq<(Seq<char>, bool)>,
)
    requires
        0 <= from <= text.len(),
    ensures
        from <= past_bodies(text, from, delimiters) <= text.len(),
    decreases delimiters.len(),
{
    if delimiters.len() > 0 {
        lemma_find_line_bounds(text, from, delimiters[0].0, delimiters[0].1);
        let at = find_line(text, from, delimiters[0].0, delimiters[0].1);
        if at < text.len() {
            strings::lemma_find_class_bounds(text, CharClass::Only('\n'), at);
            lemma_past_bodies_bounds(text, line_end(text, at), delimiters.drop_first());
        } else {
            lemma_past_bodies_bounds(text, at, delimiters.drop_first());
        }
    }
}

pub proof fn lemma_delimiter_start_bounds(line: Seq<char>, i: int)
    requires
        0 <= i,
        i + 1 < line.len(),
    ensures
        i + 2 <= delimiter_start(line, i).0 <= line.len(),
{
    let tabs = i + 2 < line.len() && line[i + 2] == '-';
    strings::lemma_skip_class_bounds(
        line,
        CharClass::Space,
        if tabs {
            i + 3
        } else {
            i + 2
        },
    );
}

pub proof fn lemma_delimiter_word_bounds(
    line: Seq<char>,
    quote: ShellQuote,
    i: int,
    read: Seq<char>,
)
    requires
        0 <= i <= line.len(),
    ensures
        i <= delimiter_word(line, quote, i, read).0 <= line.len(),
    decreases line.len() - i,
{
    if i < line.len() {
        if quote == ShellQuote::Unquoted && line[i] == '\'' {
            lemma_delimiter_word_bounds(line, ShellQuote::Single, i + 1, read);
        } else if quote == ShellQuote::Unquoted && line[i] == '"' {
            lemma_delimiter_word_bounds(line, ShellQuote::Double, i + 1, read);
        } else if quote == ShellQuote::Single && line[i] == '\'' || quote == ShellQuote::Double
            && line[i] == '"' {
            lemma_delimiter_word_bounds(line, ShellQuote::Unquoted, i + 1, read);
        } else if quote == ShellQuote::Unquoted && ends_delimiter(line[i]) {
        } else {
            lemma_delimiter_word_bounds(line, quote, i + 1, read.push(line[i]));
        }
    }
}

/// Taking line continuations out does not lengthen a text.
pub proof fn lemma_without_needle_len(text: Seq<char>, needle: Seq<char>, from: int)
    requires
        0 <= from <= text.len(),
    ensures
        without_needle(text, needle, from).len() <= text.len() - from,
    decreases text.len() - from,
{
    if from < text.len() {
        if needle.len() > 0 && strings::occurs_at(text, needle, from) {
            lemma_without_needle_len(text, needle, from + needle.len());
        } else {
            lemma_without_needle_len(text, needle, from + 1);
        }
    }
}

/// Taking here-strings out does not lengthen a text.
pub proof fn lemma_without_here_strings_len(text: Seq<char>, from: int)
    requires
        0 <= from <= text.len(),
    ensures
        without_here_strings(text, from).len() <= text.len() - from,
    decreases text.len() - from,
{
    if from < text.len() {
        strings::lemma_find_class_bounds(text, CharClass::Only('\n'), from);
        let end = line_end(text, from);
        let line = text.subrange(from, end);
        match here_string_close(
            strings::trim_end(strings::trim_end(line, CharClass::LineEnd), CharClass::Space),
        ) {
            None => {
                lemma_without_here_strings_len(text, end);
            },
            Some(close) => {
                lemma_find_line_bounds(text, end, close, false);
                let close_at = find_line(text, end, close, false);
                if close_at < text.len() {
                    strings::lemma_find_class_bounds(text, CharClass::Only('\n'), close_at);
                    lemma_without_here_strings_len(text, line_end(text, close_at));
                }
            },
        }
    }
}

/// Taking here-documents out does not lengthen a text.
pub proof fn lemma_without_heredocs_len(text: Seq<char>, from: int, quote: ShellQuote)
    requires
        0 <= from <= text.len(),
    ensures
        without_heredocs(text, from, quote).len() <= text.len() - from,
    decreases text.len() - from,
{
    if from < text.len() {
        strings::lemma_find_class_bounds(text, CharClass::Only('\n'), from);
        let end = line_end(text, from);
        let (delimiters, after) = line_delimiters(text.subrange(from, end), quote, 0, false);
        lemma_past_bodies_bounds(text, end, delimiters);
        lemma_without_heredocs_len(text, past_bodies(text, end, delimiters), after);
    }
}

/// The characters with every leftmost occurrence of `needle` taken out.
pub fn remove_needle(chars: &[char], needle: &[char]) -> (kept: Vec<char>)
    requires
        needle.len() > 0,
    ensures
        kept@ == without_needle(chars@, needle@, 0),
{
    let mut kept: Vec<char> = Vec::new();
    let mut at: usize = 0;
    while at < chars.len()
        invariant
            at <= chars.len(),
            needle.len() > 0,
            kept@ + without_needle(chars@, needle@, at as int) == without_needle(
                chars@,
                needle@,
                0,
            ),
        decreases chars.len() - at,
    {
        if occurs_in_at(chars, needle, at) {
            at += needle.len();
        } else {
            let ghost before = kept@;
            kept.push(chars[at]);
            assert(kept@ + without_needle(chars@, needle@, at + 1) =~= before + (seq![
                chars@[at as int],
            ] + without_needle(chars@, needle@, at + 1)));
            at += 1;
        }
    }
    assert(kept@ =~= kept@ + without_needle(chars@, needle@, at as int));
    kept
}

/// A payload with its line continuations joined.
pub fn remove_posix_line_continuations(text: &str) -> (joined: String)
    ensures
        joined@ == joined_lines(text@),
{
    proof {
        reveal_strlit("\\\r\n");
        reveal_strlit("\\\n");
    }
    let once = remove_needle(&chars_of(text), &chars_of("\\\r\n"));
    string_of(&remove_needle(&once, &chars_of("\\\n")))
}

/// One past the end of the line that starts at `from`.
pub fn end_of_line(chars: &[char], from: usize) -> (end: usize)
    requires
        from <= chars.len(),
    ensures
        end == line_end(chars@, from as int),
        from <= end <= chars.len(),
        from < chars.len() ==> from < end,
{
    let at = find_class_from(chars, CharClass::Only('\n'), from);
    if at < chars.len() {
        at + 1
    } else {
        at
    }
}

/// The start of the first line from `from` on that reads `wanted`.
pub fn find_line_from(
    chars: &[char],
    from: usize,
    wanted: &[char],
    strip_tabs: bool,
) -> (start: usize)
    requires
        from <= chars.len(),
    ensures
        start == find_line(chars@, from as int, wanted@, strip_tabs),
        from <= start <= chars.len(),
{
    let mut at: usize = from;
    while at < chars.len()
        invariant
            from <= at <= chars.len(),
            find_line(chars@, at as int, wanted@, strip_tabs) == find_line(
                chars@,
                from as int,
                wanted@,
                strip_tabs,
            ),
        decreases chars.len() - at,
    {
        let end = end_of_line(chars, at);
        let line = cut(chars, at, end);
        let mut bare = trim_end_of(&line, CharClass::LineEnd);
        if strip_tabs {
            bare = trim_start_of(&bare, CharClass::Only('\t'));
        }
        if same_chars(&bare, wanted) {
            return at;
        }
        at = end;
    }
    at
}

/// The line that closes a PowerShell here-string which `line` opens at its end.
pub fn powershell_here_string_terminator(line: &str) -> (close: Option<String>)
    ensures
        match close {
            Some(close) => here_string_close(line@) == Some(close@),
            None => here_string_close(line@) is None,
        },
{
    let chars = chars_of(line);
    let mut quote = ShellQuote::Unquoted;
    let mut at: usize = 0;
    while at < chars.len()
        invariant
            at <= chars.len(),
            chars@ == line@,
            here_string_quote(line@, quote, at as int) == here_string_quote(
                line@,
                ShellQuote::Unquoted,
                0,
            ),
        decreases chars.len() - at,
    {
        let c = chars[at];
        let last = at + 1 == chars.len();
        assert(here_string_quote(line@, quote, line@.len() as int + 1) is None);
        match quote {
            ShellQuote::Unquoted => {
                if c == '#' {
                    return None;
                } else if c == '\'' {
                    quote = ShellQuote::Single;
                } else if c == '"' {
                    quote = ShellQuote::Double;
                } else if c == '@' {
                    if !last && (chars[at + 1] == '\'' || chars[at + 1] == '"') {
                        let rest = cut(&chars, at + 2, chars.len());
                        let bare = trim_end_of(
                            &trim_start_of(&rest, CharClass::Space),
                            CharClass::Space,
                        );
                        if bare.len() == 0 {
                            let mut close = String::new();
                            close.push(chars[at + 1]);
                            close.push('@');
                            assert(close@ =~= seq![line@[at + 1], '@']);
                            return Some(close);
                        }
                    }
                } else if c == '`' && !last {
                    at += 1;
                }
            },
            ShellQuote::Single => {
                if c == '\'' {
                    if !last && chars[at + 1] == '\'' {
                        at += 1;
                    } else {
                        quote = ShellQuote::Unquoted;
                    }
                }
            },
            ShellQuote::Double => {
                if c == '"' {
                    quote = ShellQuote::Unquoted;
                } else if c == '`' && !last {
                    at += 1;
                }
            },
        }
        at += 1;
    }
    None
}

/// A PowerShell payload without the bodies of its here-strings.
pub fn strip_powershell_here_strings(text: &str) -> (stripped: String)
    ensures
        stripped@ == without_here_strings(text@, 0),
{
    let chars = chars_of(text);
    let mut kept = String::new();
    let mut at: usize = 0;
    while at < chars.len()
        invariant
            at <= chars.len(),
            chars@ == text@,
            kept@ + without_here_strings(text@, at as int) == without_here_strings(text@, 0),
        decreases chars.len() - at,
    {
        let ghost before = kept@;
        let end = end_of_line(&chars, at);
        let line = cut(&chars, at, end);
        kept.append(string_of(&line).as_str());
        let bare = trim_end_of(&trim_end_of(&line, CharClass::LineEnd), CharClass::Space);
        match powershell_here_string_terminator(string_of(&bare).as_str()) {
            None => {
                assert(kept@ + without_here_strings(text@, end as int) =~= before + (line@
                    + without_here_strings(text@, end as int)));
                at = end;
            },
            Some(close) => {
                let close_at = find_line_from(&chars, end, &chars_of(close.as_str()), false);
                if close_at < chars.len() {
                    let close_end = end_of_line(&chars, close_at);
                    let close_line = cut_string(&chars, close_at, close_end);
                    kept.append(close_line.as_str());
                    assert(kept@ + without_here_strings(text@, close_end as int) =~= before + (
                    line@ + close_line@ + without_here_strings(text@, close_end as int)));
                    at = close_end;
                } else {
                    assert(before + line@ =~= kept@);
                    return kept;
                }
            },
        }
    }
    assert(kept@ + without_here_strings(text@, at as int) =~= kept@);
    kept
}

/// The texts of a list of here-document delimiters.
pub open spec fn delimiter_texts(delimiters: Seq<(String, bool)>) -> Seq<(Seq<char>, bool)> {
    delimiters.map_values(|d: (String, bool)| (d.0@, d.1))
}

/// The here-document delimiters that a line announces, and the quotes in which
/// it ends.
pub fn heredoc_delimiters(line: &str, quote: &mut ShellQuote) -> (delimiters: Vec<(String, bool)>)
    ensures
        (delimiter_texts(delimiters@), *final(quote)) == line_delimiters(
            line@,
            *old(quote),
            0,
            false,
        ),
{
    let chars = chars_of(line);
    let ghost start_quote = *quote;
    let mut current = *quote;
    let mut delimiters: Vec<(String, bool)> = Vec::new();
    let mut at: usize = 0;
    let mut word_started = false;
    while at < chars.len() && at + 1 < chars.len()
        invariant_except_break
            at <= chars.len(),
            chars@ == line@,
            ({
                let rest = line_delimiters(line@, current, at as int, word_started);
                (delimiter_texts(delimiters@) + rest.0, rest.1) == line_delimiters(
                    line@,
                    start_quote,
                    0,
                    false,
                )
            }),
        ensures
            (delimiter_texts(delimiters@), current) == line_delimiters(
                line@,
                start_quote,
                0,
                false,
            ),
        decreases chars.len() - at,
    {
        let c = chars[at];
        match current {
            ShellQuote::Single => {
                if c == '\'' {
                    current = ShellQuote::Unquoted;
                }
            },
            ShellQuote::Double => {
                if c == '"' {
                    current = ShellQuote::Unquoted;
                }
            },
            ShellQuote::Unquoted => {
                if c == '\'' {
                    current = ShellQuote::Single;
                    word_started = true;
                } else if c == '"' {
                    current = ShellQuote::Double;
                    word_started = true;
                } else if c == '#' && !word_started {
                    assert(delimiter_texts(delimiters@) + Seq::<(Seq<char>, bool)>::empty()
                        =~= delimiter_texts(delimiters@));
                    break ;
                } else if c == '<' && chars[at + 1] == '<' {
                    if at + 2 < chars.len() && chars[at + 2] == '<' {
                        at += 3;
                        continue ;
                    }
                    let ghost operator = at as int;
                    let ghost before = delimiters@;
                    let (end, word, tabs) = read_delimiter(&chars, at);
                    at = end;
                    if word.len() > 0 {
                        delimiters.push((string_of(&word), tabs));
                        assert(delimiter_texts(delimiters@) =~= delimiter_texts(before).push(
                            (word@, tabs),
                        ));
                        let ghost rest = line_delimiters(line@, current, at as int, false);
                        assert(delimiter_texts(delimiters@) + rest.0 =~= delimiter_texts(before) + (
                        seq![(word@, tabs)] + rest.0));
                    }
                    word_started = false;
                    continue ;
                } else {
                    word_started = !(char_in_class(CharClass::Space, c) || c == ';' || c == '&'
                        || c == '|' || c == '(' || c == ')');
                }
            },
        }
        at += 1;
        proof {
            if at + 1 >= chars.len() {
                assert(delimiter_texts(delimiters@) + Seq::<(Seq<char>, bool)>::empty()
                    =~= delimiter_texts(delimiters@));
            }
        }
    }
    *quote = current;
    delimiters
}

/// The delimiter word after the `<<` at `at`: where it ends, its characters, and
/// whether the operator is `<<-`.
fn read_delimiter(chars: &[char], at: usize) -> (read: (usize, Vec<char>, bool))
    requires
        at + 1 < chars.len(),
    ensures
        at + 2 <= read.0 <= chars.len(),
        delimiter_start(chars@, at as int).1 == read.2,
        delimiter_word(
            chars@,
            ShellQuote::Unquoted,
            delimiter_start(chars@, at as int).0,
            Seq::empty(),
        ) == (read.0 as int, read.1@),
{
    let tabs = at + 2 < chars.len() && chars[at + 2] == '-';
    let mut i: usize = if tabs {
        at + 3
    } else {
        at + 2
    };
    let ghost from = i as int;
    while i < chars.len() && char_in_class(CharClass::Space, chars[i])
        invariant
            at + 2 <= i <= chars.len(),
            strings::skip_class(chars@, CharClass::Space, i as int)
                == strings::skip_class(chars@, CharClass::Space, from),
        decreases chars.len() - i,
    {
        i += 1;
    }
    let ghost start = i as int;
    let mut word: Vec<char> = Vec::new();
    let mut quote = ShellQuote::Unquoted;
    let ghost whole = delimiter_word(chars@, ShellQuote::Unquoted, start, Seq::empty());
    while i < chars.len()
        invariant_except_break
            at + 2 <= i <= chars.len(),
            delimiter_word(chars@, quote, i as int, word@) == whole,
        ensures
            at + 2 <= i <= chars.len(),
            whole == (i as int, word@),
        decreases chars.len() - i,
    {
        let c = chars[i];
        if quote == ShellQuote::Unquoted && c == '\'' {
            quote = ShellQuote::Single;
        } else if quote == ShellQuote::Unquoted && c == '"' {
            quote = ShellQuote::Double;
        } else if quote == ShellQuote::Single && c == '\'' || quote == ShellQuote::Double && c
            == '"' {
            quote = ShellQuote::Unquoted;
        } else if quote == ShellQuote::Unquoted && (char_in_class(CharClass::Space, c) || c == ';'
            || c == '&' || c == '|') {
            break ;
        } else {
            word.push(c);
        }
        i += 1;
    }
    (i, word, tabs)
}

/// A POSIX payload without its here-document bodies.
pub fn strip_heredoc_bodies(text: &str) -> (stripped: String)
    ensures
        stripped@ == without_heredocs(text@, 0, ShellQuote::Unquoted),
{
    let chars = chars_of(text);
    let mut kept = String::new();
    let mut quote = ShellQuote::Unquoted;
    let mut at: usize = 0;
    while at < chars.len()
        invariant
            at <= chars.len(),
            chars@ == text@,
            kept@ + without_heredocs(text@, at as int, quote) == without_heredocs(
                text@,
                0,
                ShellQuote::Unquoted,
            ),
        decreases chars.len() - at,
    {
        let ghost before = kept@;
        let ghost from = at as int;
        let ghost quote_before = quote;
        let end = end_of_line(&chars, at);
        let line = cut_string(&chars, at, end);
        kept.append(line.as_str());
        let delimiters = heredoc_delimiters(line.as_str(), &mut quote);
        let ghost all = delimiter_texts(delimiters@);
        at = end;
        let mut next: usize = 0;
        assert(all.skip(0) =~= all);
        while next < delimiters.len()
            invariant
                next <= delimiters.len(),
                end <= at <= chars.len(),
                chars@ == text@,
                all == delimiter_texts(delimiters@),
                past_bodies(text@, at as int, all.skip(next as int)) == past_bodies(
                    text@,
                    end as int,
                    all,
                ),
            decreases delimiters.len() - next,
        {
            let ghost left = all.skip(next as int);
            assert(left[0] == (delimiters@[next as int].0@, delimiters@[next as int].1));
            assert(left.drop_first() =~= all.skip(next + 1));
            let body_end = find_line_from(
                &chars,
                at,
                &chars_of(delimiters[next].0.as_str()),
                delimiters[next].1,
            );
            if body_end < chars.len() {
                at = end_of_line(&chars, body_end);
            } else {
                at = body_end;
            }
            next += 1;
        }
        assert(all.skip(next as int) =~= Seq::empty());
        assert(at == past_bodies(text@, end as int, all));
        assert(kept@ + without_heredocs(text@, at as int, quote) =~= before + (line@
            + without_heredocs(text@, at as int, quote)));
    }
    assert(kept@ + without_heredocs(text@, at as int, quote) =~= kept@);
    kept
}

} // verus!
