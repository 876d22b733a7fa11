//! What holds of parsing shell payloads: plain commands that stand side by side are
//! parsed each for itself.
use vstd::prelude::*;

use crate::shell_parse;
use crate::shell_parse::{Scan, ShellDialect};
use crate::shell_text;
use crate::shell_text::ShellQuote;
use crate::strings;
use crate::strings::CharClass;

verus! {

/// Whether a character means itself in every dialect: letters, digits, spaces, `_`,
/// `.`, `/`, `-` and whatever else is no quote, escape, expansion, group, comment,
/// redirection, separator or line feed.
pub open spec fn is_plain_char(c: char) -> bool {
    &&& c != '\'' && c != '"'
    &&& c != '\\' && c != '`' && c != '^'
    &&& c != '$' && c != '{' && c != '}' && c != '(' && c != ')'
    &&& c != '#' && c != '<' && c != '>'
    &&& c != ';' && c != '&' && c != '|' && c != '\n'
}

pub open spec fn is_plain(text: Seq<char>) -> bool {
    forall|i: int| 0 <= i < text.len() ==> is_plain_char(#[trigger] text[i])
}

/// What stands between two commands.
pub open spec fn is_separator(text: Seq<char>) -> bool {
    text == seq![';'] || text == seq!['\n'] || text == seq!['|'] || text == seq!['&', '&']
        || text == seq!['|', '|'] || text == seq!['&']
}

/// The words of a text from a place up to another, cut at white space, after the start
/// of a word that was read before.
pub open spec fn words_between(text: Seq<char>, at: int, to: int, word: Seq<char>) -> Seq<Seq<char>>
    decreases to - at,
{
    if at >= to {
        if word.len() > 0 {
            seq![word]
        } else {
            Seq::empty()
        }
    } else if strings::is_space(text[at]) {
        if word.len() > 0 {
            seq![word] + words_between(text, at + 1, to, Seq::empty())
        } else {
            words_between(text, at + 1, to, Seq::empty())
        }
    } else {
        words_between(text, at + 1, to, word.push(text[at]))
    }
}

/// The words of a text, cut at white space.
pub open spec fn words(text: Seq<char>) -> Seq<Seq<char>> {
    words_between(text, 0, text.len() as int, Seq::empty())
}

/// No quote, backslash or here-document is in a text.
spec fn is_calm(text: Seq<char>) -> bool {
    forall|i: int|
        0 <= i < text.len() ==> {
            let c = #[trigger] text[i];
            c != '\'' && c != '"' && c != '\\' && c != '<'
        }
}

proof fn lemma_words_move(a: Seq<char>, at: int, to: int, b: Seq<char>, by: int, word: Seq<char>)
    requires
        0 <= at <= to <= a.len(),
        0 <= by,
        to + by <= b.len(),
        forall|i: int| at <= i < to ==> #[trigger] a[i] == b[i + by],
    ensures
        words_between(b, at + by, to + by, word) == words_between(a, at, to, word),
    decreases to - at,
{
    if at < to {
        assert(a[at] == b[at + by]);
        lemma_words_move(a, at + 1, to, b, by, Seq::empty());
        lemma_words_move(a, at + 1, to, b, by, word.push(a[at]));
    }
}

proof fn lemma_nothing_taken_out(text: Seq<char>, needle: Seq<char>, from: int)
    requires
        0 <= from <= text.len(),
        is_calm(text),
        needle.len() > 0,
        needle[0] == '\\',
    ensures
        shell_text::without_needle(text, needle, from) == text.skip(from),
    decreases text.len() - from,
{
    if from < text.len() {
        lemma_nothing_taken_out(text, needle, from + 1);
        if strings::occurs_at(text, needle, from) {
            assert(text.subrange(from, from + needle.len())[0] == text[from]);
        }
        assert(seq![text[from]] + text.skip(from + 1) =~= text.skip(from));
    } else {
        assert(text.skip(from) =~= Seq::empty());
    }
}

proof fn lemma_no_delimiters(line: Seq<char>, i: int, started: bool)
    requires
        0 <= i,
        is_calm(line),
    ensures
        shell_text::line_delimiters(line, ShellQuote::Unquoted, i, started) == (
            Seq::<(Seq<char>, bool)>::empty(),
            ShellQuote::Unquoted,
        ),
    decreases line.len() - i,
{
    if i + 1 < line.len() {
        let c = line[i];
        let next = !(strings::is_space(c) || c == ';' || c == '&' || c == '|' || c == '(' || c
            == ')');
        lemma_no_delimiters(line, i + 1, next);
    }
}

proof fn lemma_no_heredocs(text: Seq<char>, from: int)
    requires
        0 <= from <= text.len(),
        is_calm(text),
    ensures
        shell_text::without_heredocs(text, from, ShellQuote::Unquoted) == text.skip(from),
    decreases text.len() - from,
{
    if from < text.len() {
        strings::lemma_find_class_bounds(text, CharClass::Only('\n'), from);
        let end = shell_text::line_end(text, from);
        let line = text.subrange(from, end);
        lemma_no_delimiters(line, 0, false);
        lemma_no_heredocs(text, end);
        assert(line + text.skip(end) =~= text.skip(from));
    } else {
        assert(text.skip(from) =~= Seq::empty());
    }
}

proof fn lemma_no_here_string(line: Seq<char>, i: int)
    requires
        0 <= i,
        is_calm(line),
    ensures
        shell_text::here_string_quote(line, ShellQuote::Unquoted, i) is None,
    decreases line.len() - i + 1,
{
    if i < line.len() {
        lemma_no_here_string(line, i + 1);
        lemma_no_here_string(line, i + 2);
    }
}

proof fn lemma_trimmed_is_calm(line: Seq<char>, class: CharClass)
    requires
        is_calm(line),
    ensures
        is_calm(strings::trim_end(line, class)),
{
    strings::lemma_rskip_class_bounds(line, class, line.len() as int);
}

proof fn lemma_no_here_strings(text: Seq<char>, from: int)
    requires
        0 <= from <= text.len(),
        is_calm(text),
    ensures
        shell_text::without_here_strings(text, from) == text.skip(from),
    decreases text.len() - from,
{
    if from < text.len() {
        strings::lemma_find_class_bounds(text, CharClass::Only('\n'), from);
        let end = shell_text::line_end(text, from);
        let line = text.subrange(from, end);
        let bare = strings::trim_end(line, CharClass::LineEnd);
        lemma_trimmed_is_calm(line, CharClass::LineEnd);
        lemma_trimmed_is_calm(bare, CharClass::Space);
        lemma_no_here_string(strings::trim_end(bare, CharClass::Space), 0);
        lemma_no_here_strings(text, end);
        assert(line + text.skip(end) =~= text.skip(from));
    } else {
        assert(text.skip(from) =~= Seq::empty());
    }
}

/// Nothing is taken out of a text without quotes, backslashes and here-documents.
proof fn lemma_body_is_the_text(text: Seq<char>, dialect: ShellDialect)
    requires
        is_calm(text),
    ensures
        shell_parse::payload_body(text, dialect) == text,
{
    assert(text.skip(0) =~= text);
    match dialect {
        ShellDialect::Posix => {
            reveal_strlit("\\\r\n");
            reveal_strlit("\\\n");
            lemma_nothing_taken_out(text, "\\\r\n"@, 0);
            lemma_nothing_taken_out(text, "\\\n"@, 0);
            lemma_no_heredocs(text, 0);
        },
        ShellDialect::Powershell => {
            lemma_no_here_strings(text, 0);
        },
        ShellDialect::Cmd => {},
    }
}

/// Reading plain characters up to a place adds their words to the open command.
proof fn lemma_plain_is_read(scan: Scan, text: Seq<char>, dialect: ShellDialect, to: int) -> (end:
    Scan)
    requires
        0 <= scan.index <= to <= text.len(),
        forall|i: int| scan.index <= i < to ==> is_plain_char(#[trigger] text[i]),
        scan.quote == ShellQuote::Unquoted,
        scan.started == (scan.word.len() > 0),
    ensures
        end.run(text, dialect) == scan.run(text, dialect),
        end.index == to,
        end.quote == ShellQuote::Unquoted,
        end.started == (end.word.len() > 0),
        end.commands == scan.commands,
        end.substitutions == scan.substitutions,
        end.end_word().command == scan.command + words_between(text, scan.index, to, scan.word),
        end.end_word().commands == scan.commands,
        end.end_word().word.len() == 0,
        !end.end_word().started,
    decreases to - scan.index,
{
    if scan.index == to {
        assert(scan.end_word().command =~= scan.command + words_between(
            text,
            scan.index,
            to,
            scan.word,
        ));
        scan
    } else {
        let c = text[scan.index];
        let next = scan.step(text, dialect);
        shell_parse::lemma_step_advances(scan, text, dialect);
        if strings::is_space(c) {
            assert(next == scan.end_word().at(scan.index + 1));
            assert(next.word =~= Seq::empty());
            let end = lemma_plain_is_read(next, text, dialect, to);
            assert(end.end_word().command =~= scan.command + words_between(
                text,
                scan.index,
                to,
                scan.word,
            ));
            end
        } else {
            assert(next == scan.take(c, 1));
            lemma_plain_is_read(next, text, dialect, to)
        }
    }
}

/// The commands that words make up: none without a word.
pub open spec fn commands_of(words: Seq<Seq<char>>) -> Seq<Seq<Seq<char>>> {
    if words.len() == 0 {
        Seq::empty()
    } else {
        seq![shell_parse::without_redirections(words, false)]
    }
}

proof fn lemma_plain_parse(text: Seq<char>, dialect: ShellDialect)
    requires
        is_plain(text),
    ensures
        shell_parse::parsed(text, dialect).commands == commands_of(words(text)),
        shell_parse::parsed(text, dialect).substitutions.len() == 0,
{
    lemma_body_is_the_text(text, dialect);
    let end = lemma_plain_is_read(Scan::start(), text, dialect, text.len() as int);
    assert(end.end_word().command =~= words(text));
    assert(shell_parse::parsed(text, dialect).commands =~= commands_of(words(text)));
}

/// Plain payloads that are joined by a separator are parsed as the commands of the one
/// and then those of the other, and hold no substitutions.
pub proof fn joined_payloads_are_parsed_apart(
    a: Seq<char>,
    separator: Seq<char>,
    b: Seq<char>,
    dialect: ShellDialect,
)
    requires
        is_plain(a),
        is_plain(b),
        is_separator(separator),
    ensures
        shell_parse::parsed(a + separator + b, dialect).commands == shell_parse::parsed(
            a,
            dialect,
        ).commands + shell_parse::parsed(b, dialect).commands,
        shell_parse::parsed(a + separator + b, dialect).substitutions.len() == 0,
        shell_parse::parsed(a, dialect).substitutions.len() == 0,
        shell_parse::parsed(b, dialect).substitutions.len() == 0,
{
    let text = a + separator + b;
    let start = (a.len() + separator.len()) as int;
    let length = text.len() as int;
    assert forall|i: int| 0 <= i < text.len() implies ({
        let c = #[trigger] text[i];
        c != '\'' && c != '"' && c != '\\' && c != '<'
    }) by {
        if i < a.len() {
            assert(text[i] == a[i]);
        } else if i >= start {
            assert(text[i] == b[i - start]);
        } else {
            assert(text[i] == separator[i - a.len()]);
        }
    }
    assert forall|i: int| 0 <= i < a.len() implies is_plain_char(#[trigger] text[i]) by {
        assert(text[i] == a[i]);
    }
    assert forall|i: int| start <= i < length implies is_plain_char(#[trigger] text[i]) by {
        assert(text[i] == b[i - start]);
    }
    lemma_plain_parse(a, dialect);
    lemma_plain_parse(b, dialect);
    lemma_body_is_the_text(text, dialect);
    let first = lemma_plain_is_read(Scan::start(), text, dialect, a.len() as int);
    lemma_words_move(a, 0, a.len() as int, text, 0, Seq::empty());
    assert(first.end_word().command =~= words(a));
    assert(text[a.len() as int] == separator[0]);
    if separator.len() == 2 {
        assert(text[a.len() as int + 1] == separator[1]);
    }
    let next = first.step(text, dialect);
    shell_parse::lemma_step_advances(first, text, dialect);
    assert(next == first.end_word().end_command().at(start));
    assert(next.word =~= Seq::empty());
    assert(next.command =~= Seq::empty());
    let last = lemma_plain_is_read(next, text, dialect, length);
    lemma_words_move(b, 0, b.len() as int, text, start, Seq::empty());
    assert(last.end_word().command =~= words(b));
    assert(shell_parse::parsed(text, dialect).commands =~= commands_of(words(a)) + commands_of(
        words(b),
    ));
}

proof fn lemma_no_redirections(words: Seq<Seq<char>>)
    requires
        !words.contains(shell_parse::redirection()),
    ensures
        shell_parse::without_redirections(words, false) == words,
    decreases words.len(),
{
    if words.len() > 0 {
        let rest = words.drop_first();
        assert(words.contains(words[0]));
        assert forall|i: int| 0 <= i < rest.len() implies #[trigger] rest[i]
            != shell_parse::redirection() by {
            assert(rest[i] == words[i + 1]);
            assert(words.contains(words[i + 1]));
        }
        lemma_no_redirections(rest);
        assert(seq![words[0]] + rest =~= words);
    } else {
        assert(shell_parse::without_redirections(words, false) =~= words);
    }
}

/// A plain payload is one command of its words, or none if it has no word, unless a
/// word of it is the one that stands for a redirection.
pub proof fn plain_payload_is_its_words(text: Seq<char>, dialect: ShellDialect)
    requires
        is_plain(text),
        !words(text).contains(shell_parse::redirection()),
    ensures
        shell_parse::parsed(text, dialect).commands == (if words(text).len() == 0 {
            Seq::empty()
        } else {
            seq![words(text)]
        }),
        shell_parse::parsed(text, dialect).substitutions.len() == 0,
{
    lemma_plain_parse(text, dialect);
    lemma_no_redirections(words(text));
}

/// The words of a text are made of its characters.
pub proof fn lemma_words_are_of_the_text(text: Seq<char>, at: int, to: int, word: Seq<char>)
    requires
        0 <= at,
        to <= text.len(),
        is_plain(text),
        is_plain(word),
    ensures
        forall|k: int|
            0 <= k < words_between(text, at, to, word).len() ==> is_plain(
                #[trigger] words_between(text, at, to, word)[k],
            ),
    decreases to - at,
{
    if at < to {
        lemma_words_are_of_the_text(text, at + 1, to, Seq::empty());
        assert(is_plain(word.push(text[at])));
        lemma_words_are_of_the_text(text, at + 1, to, word.push(text[at]));
    }
    let all = words_between(text, at, to, word);
    assert forall|k: int| 0 <= k < all.len() implies is_plain(#[trigger] all[k]) by {
        if at < to {
            if strings::is_space(text[at]) {
                let rest = words_between(text, at + 1, to, Seq::empty());
                if word.len() > 0 {
                    if k > 0 {
                        assert(all[k] == rest[k - 1]);
                    }
                } else {
                    assert(all[k] == rest[k]);
                }
            } else {
                let rest = words_between(text, at + 1, to, word.push(text[at]));
                assert(all[k] == rest[k]);
            }
        }
    }
}

pub proof fn lemma_plain_redirections(words: Seq<Seq<char>>, target: bool)
    requires
        forall|k: int| 0 <= k < words.len() ==> is_plain(#[trigger] words[k]),
    ensures
        forall|k: int|
            0 <= k < shell_parse::without_redirections(words, target).len() ==> is_plain(
                #[trigger] shell_parse::without_redirections(words, target)[k],
            ),
    decreases words.len(),
{
    if words.len() > 0 {
        let rest = words.drop_first();
        assert forall|k: int| 0 <= k < rest.len() implies is_plain(#[trigger] rest[k]) by {
            assert(rest[k] == words[k + 1]);
        }
        assert(is_plain(words[0]));
        lemma_plain_redirections(rest, true);
        lemma_plain_redirections(rest, false);
        let all = shell_parse::without_redirections(words, target);
        assert forall|k: int| 0 <= k < all.len() implies is_plain(#[trigger] all[k]) by {
            let data = shell_parse::without_redirections(rest, true);
            let more = shell_parse::without_redirections(rest, false);
            if words[0] == shell_parse::redirection() {
                assert(all[k] == data[k]);
            } else if target {
                assert(all[k] == more[k]);
            } else if k > 0 {
                assert(all[k] == more[k - 1]);
            }
        }
    }
}

/// The commands of a plain payload are of plain words, and there is at most one.
pub proof fn lemma_plain_commands(text: Seq<char>, dialect: ShellDialect)
    requires
        is_plain(text),
    ensures
        shell_parse::parsed(text, dialect).commands.len() <= 1,
        forall|c: int, k: int|
            0 <= c < shell_parse::parsed(text, dialect).commands.len() && 0 <= k
                < shell_parse::parsed(text, dialect).commands[c].len() ==> is_plain(
                #[trigger] shell_parse::parsed(text, dialect).commands[c][k],
            ),
{
    lemma_plain_parse(text, dialect);
    lemma_words_are_of_the_text(text, 0, text.len() as int, Seq::empty());
    lemma_plain_redirections(words(text), false);
}

/// Whether a text can stand in these quotes without ending them or meaning more than
/// itself.
pub open spec fn is_quotable(text: Seq<char>, quote: char) -> bool {
    forall|i: int|
        0 <= i < text.len() ==> {
            let c = #[trigger] text[i];
            c != quote && c != '\\' && c != '<' && (quote == '"' ==> c != '$' && c != '`')
        }
}

proof fn lemma_quoted_no_delimiters(line: Seq<char>, quote: ShellQuote, i: int, started: bool)
    requires
        0 <= i,
        !line.contains('<'),
    ensures
        shell_text::line_delimiters(line, quote, i, started).0 == Seq::<(Seq<char>, bool)>::empty(),
    decreases line.len() - i,
{
    if i + 1 < line.len() {
        assert(line.contains(line[i]));
        lemma_quoted_no_delimiters(line, quote, i + 1, started);
        lemma_quoted_no_delimiters(line, ShellQuote::Unquoted, i + 1, started);
        lemma_quoted_no_delimiters(line, ShellQuote::Single, i + 1, true);
        lemma_quoted_no_delimiters(line, ShellQuote::Double, i + 1, true);
        lemma_quoted_no_delimiters(line, quote, i + 1, true);
        lemma_quoted_no_delimiters(line, quote, i + 1, false);
    }
}

proof fn lemma_quoted_no_heredocs(text: Seq<char>, from: int, quote: ShellQuote)
    requires
        0 <= from <= text.len(),
        !text.contains('<'),
    ensures
        shell_text::without_heredocs(text, from, quote) == text.skip(from),
    decreases text.len() - from,
{
    if from < text.len() {
        strings::lemma_find_class_bounds(text, CharClass::Only('\n'), from);
        let end = shell_text::line_end(text, from);
        let line = text.subrange(from, end);
        assert forall|i: int| 0 <= i < line.len() implies line[i] != '<' by {
            assert(text.contains(text[from + i]));
        }
        lemma_quoted_no_delimiters(line, quote, 0, false);
        let after = shell_text::line_delimiters(line, quote, 0, false).1;
        lemma_quoted_no_heredocs(text, end, after);
        assert(line + text.skip(end) =~= text.skip(from));
    } else {
        assert(text.skip(from) =~= Seq::empty());
    }
}

proof fn lemma_quoted_nothing_taken_out(text: Seq<char>, needle: Seq<char>, from: int)
    requires
        0 <= from <= text.len(),
        !text.contains('\\'),
        needle.len() > 0,
        needle[0] == '\\',
    ensures
        shell_text::without_needle(text, needle, from) == text.skip(from),
    decreases text.len() - from,
{
    if from < text.len() {
        lemma_quoted_nothing_taken_out(text, needle, from + 1);
        assert(text.contains(text[from]));
        if strings::occurs_at(text, needle, from) {
            assert(text.subrange(from, from + needle.len())[0] == text[from]);
        }
        assert(seq![text[from]] + text.skip(from + 1) =~= text.skip(from));
    } else {
        assert(text.skip(from) =~= Seq::empty());
    }
}

proof fn lemma_quoted_body(text: Seq<char>, dialect: ShellDialect)
    requires
        !text.contains('\\'),
        !text.contains('<'),
        dialect != ShellDialect::Powershell,
    ensures
        shell_parse::payload_body(text, dialect) == text,
{
    assert(text.skip(0) =~= text);
    if dialect == ShellDialect::Posix {
        reveal_strlit("\\\r\n");
        reveal_strlit("\\\n");
        lemma_quoted_nothing_taken_out(text, "\\\r\n"@, 0);
        lemma_quoted_nothing_taken_out(text, "\\\n"@, 0);
        lemma_quoted_no_heredocs(text, 0, ShellQuote::Unquoted);
    }
}

/// Reading inside quotes takes every character into the open word.
proof fn lemma_quoted_is_read(scan: Scan, text: Seq<char>, dialect: ShellDialect, to: int) -> (end:
    Scan)
    requires
        0 <= scan.index <= to <= text.len(),
        scan.quote == ShellQuote::Single || scan.quote == ShellQuote::Double,
        dialect != ShellDialect::Powershell,
        is_quotable(
            text.subrange(scan.index, to),
            if scan.quote == ShellQuote::Single {
                '\''
            } else {
                '"'
            },
        ),
    ensures
        end.run(text, dialect) == scan.run(text, dialect),
        end.index == to,
        end.quote == scan.quote,
        end.started == (scan.started || to > scan.index),
        end.commands == scan.commands,
        end.substitutions == scan.substitutions,
        end.command == scan.command,
        end.word == scan.word + text.subrange(scan.index, to),
    decreases to - scan.index,
{
    if scan.index == to {
        assert(scan.word + text.subrange(scan.index, to) =~= scan.word);
        scan
    } else {
        let c = text[scan.index];
        assert(text.subrange(scan.index, to)[0] == c);
        let next = scan.step(text, dialect);
        shell_parse::lemma_step_advances(scan, text, dialect);
        assert(next == scan.take(c, 1));
        assert forall|i: int| 0 <= i < text.subrange(next.index, to).len() implies #[trigger] text.subrange(
            next.index,
            to,
        )[i] == text.subrange(scan.index, to)[i + 1] by {}
        let end = lemma_quoted_is_read(next, text, dialect, to);
        assert(end.word =~= scan.word + text.subrange(scan.index, to));
        end
    }
}

/// A text in quotes is one word, whatever separators and spaces it holds: it is neither
/// cut nor ends the command, and the quotes are taken off.
pub proof fn quoted_text_is_one_word(
    a: Seq<char>,
    quote: char,
    inner: Seq<char>,
    b: Seq<char>,
    dialect: ShellDialect,
)
    requires
        dialect != ShellDialect::Powershell,
        is_plain(a),
        is_plain(b),
        quote == '\'' || quote == '"',
        is_quotable(inner, quote),
        !(words(a) + seq![inner] + words(b)).contains(shell_parse::redirection()),
    ensures
        shell_parse::parsed(
            a + seq![' ', quote] + inner + seq![quote, ' '] + b,
            dialect,
        ).commands == seq![words(a) + seq![inner] + words(b)],
        shell_parse::parsed(
            a + seq![' ', quote] + inner + seq![quote, ' '] + b,
            dialect,
        ).substitutions.len() == 0,
{
    let text = a + seq![' ', quote] + inner + seq![quote, ' '] + b;
    let open = a.len() as int + 1;
    let close = open + 1 + inner.len();
    assert(text[open - 1] == ' ' && text[open] == quote && text[close] == quote && text[close + 1]
        == ' ');
    assert forall|i: int| 0 <= i < text.len() implies text[i] != '\\' && text[i] != '<' by {
        if i < a.len() {
            assert(text[i] == a[i]);
        } else if open < i < close {
            assert(text[i] == inner[i - open - 1]);
        } else if i >= close + 2 {
            assert(text[i] == b[i - close - 2]);
        }
    }
    lemma_quoted_body(text, dialect);
    assert(a =~= text.take(a.len() as int));
    let opened = lemma_read_to_the_quote(text, a, dialect);
    assert(text.subrange(open + 1, close) =~= inner);
    let closed = lemma_read_the_quoted(opened, text, quote, inner, dialect);
    assert forall|i: int| close + 2 <= i < text.len() implies is_plain_char(#[trigger] text[i]) by {
        assert(text[i] == b[i - close - 2]);
    }
    let last = lemma_plain_is_read(closed, text, dialect, text.len() as int);
    lemma_words_move(b, 0, b.len() as int, text, close + 2, Seq::empty());
    let command = words(a) + seq![inner] + words(b);
    assert(last.end_word().command =~= command);
    lemma_no_redirections(command);
    assert(last.run(text, dialect) == last);
    let end = last.end_word().end_command();
    assert(end.commands =~= seq![command]);
    assert(shell_parse::parsed(text, dialect).commands =~= seq![command]);
}

/// Reading plain text and the space behind it leaves its words in the open command.
proof fn lemma_read_to_the_quote(text: Seq<char>, a: Seq<char>, dialect: ShellDialect) -> (opened:
    Scan)
    requires
        a.len() < text.len(),
        text[a.len() as int] == ' ',
        a == text.take(a.len() as int),
        is_plain(a),
    ensures
        opened.run(text, dialect) == Scan::start().run(text, dialect),
        opened.index == a.len() + 1,
        opened.quote == ShellQuote::Unquoted,
        !opened.started,
        opened.word == Seq::<char>::empty(),
        opened.command == words(a),
        opened.commands == Scan::start().commands,
        opened.substitutions == Scan::start().substitutions,
{
    assert forall|i: int| 0 <= i < a.len() implies is_plain_char(#[trigger] text[i]) by {
        assert(text[i] == a[i]);
    }
    let first = lemma_plain_is_read(Scan::start(), text, dialect, a.len() as int);
    lemma_words_move(a, 0, a.len() as int, text, 0, Seq::empty());
    assert(first.end_word().command =~= words(a));
    let second = first.step(text, dialect);
    shell_parse::lemma_step_advances(first, text, dialect);
    assert(strings::is_space(' '));
    assert(second == first.end_word().at(a.len() as int + 1));
    assert(second.word =~= Seq::empty());
    second
}

/// Reading a quoted text and the space behind it adds it to the open command.
proof fn lemma_read_the_quoted(
    scan: Scan,
    text: Seq<char>,
    quote: char,
    inner: Seq<char>,
    dialect: ShellDialect,
) -> (closed: Scan)
    requires
        dialect != ShellDialect::Powershell,
        quote == '\'' || quote == '"',
        is_quotable(inner, quote),
        scan.quote == ShellQuote::Unquoted,
        !scan.started,
        scan.word == Seq::<char>::empty(),
        0 <= scan.index,
        scan.index + inner.len() + 2 < text.len(),
        text[scan.index] == quote,
        text.subrange(scan.index + 1, scan.index + 1 + inner.len()) == inner,
        text[scan.index + 1 + inner.len()] == quote,
        text[scan.index + 2 + inner.len()] == ' ',
    ensures
        closed.run(text, dialect) == scan.run(text, dialect),
        closed.index == scan.index + inner.len() + 3,
        closed.quote == ShellQuote::Unquoted,
        !closed.started,
        closed.word == Seq::<char>::empty(),
        closed.command == scan.command.push(inner),
        closed.commands == scan.commands,
        closed.substitutions == scan.substitutions,
{
    let close = scan.index + 1 + inner.len();
    let second = scan.step(text, dialect);
    shell_parse::lemma_step_advances(scan, text, dialect);
    assert(second == scan.turn(
        if quote == '\'' {
            ShellQuote::Single
        } else {
            ShellQuote::Double
        },
    ));
    let third = lemma_quoted_is_read(second, text, dialect, close);
    assert(third.word =~= inner);
    let fourth = third.step(text, dialect);
    shell_parse::lemma_step_advances(third, text, dialect);
    assert(fourth == third.turn(ShellQuote::Unquoted));
    let fifth = fourth.step(text, dialect);
    shell_parse::lemma_step_advances(fourth, text, dialect);
    assert(strings::is_space(' '));
    assert(fifth == fourth.end_word().at(close + 2));
    assert(scan.run(text, dialect) == second.run(text, dialect));
    assert(third.run(text, dialect) == fourth.run(text, dialect));
    assert(fourth.run(text, dialect) == fifth.run(text, dialect));
    fifth
}

proof fn lemma_plain_parenthesis(text: Seq<char>, i: int, close: int)
    requires
        0 <= i <= close < text.len(),
        text[close] == ')',
        forall|k: int| i <= k < close ==> is_plain_char(#[trigger] text[k]),
    ensures
        shell_parse::closing_parenthesis(text, i, 1, ShellQuote::Unquoted) == Some(close),
    decreases close - i,
{
    if i < close {
        assert(is_plain_char(text[i]));
        lemma_plain_parenthesis(text, i + 1, close);
    }
}

/// A command substitution is found wherever it stands in a plain command: what is in its
/// parentheses is handed out to be looked at for itself.
pub proof fn substitutions_are_handed_out(
    a: Seq<char>,
    inner: Seq<char>,
    b: Seq<char>,
    dialect: ShellDialect,
)
    requires
        is_plain(a),
        is_plain(inner),
        is_plain(b),
    ensures
        shell_parse::parsed(a + seq!['$', '('] + inner + seq![')'] + b, dialect).substitutions
            == seq![inner],
{
    let text = a + seq!['$', '('] + inner + seq![')'] + b;
    let at = a.len() as int;
    let from = at + 2;
    let close = from + inner.len();
    let back = close + 1;
    assert(text[at] == '$' && text[at + 1] == '(' && text[close] == ')');
    assert forall|i: int| 0 <= i < text.len() implies ({
        let c = #[trigger] text[i];
        c != '\'' && c != '"' && c != '\\' && c != '<'
    }) by {
        if i < a.len() {
            assert(text[i] == a[i]);
        } else if from <= i < close {
            assert(text[i] == inner[i - from]);
        } else if i >= back {
            assert(text[i] == b[i - back]);
        }
    }
    lemma_body_is_the_text(text, dialect);
    assert forall|i: int| 0 <= i < a.len() implies is_plain_char(#[trigger] text[i]) by {
        assert(text[i] == a[i]);
    }
    let first = lemma_plain_is_read(Scan::start(), text, dialect, at);
    assert forall|k: int| from <= k < close implies is_plain_char(#[trigger] text[k]) by {
        assert(text[k] == inner[k - from]);
    }
    lemma_plain_parenthesis(text, from, close);
    assert(text.subrange(from, close) =~= inner);
    let second = first.step(text, dialect);
    shell_parse::lemma_step_advances(first, text, dialect);
    reveal_strlit("$()");
    assert("$()"@.len() == 3);
    assert(second.substitutions =~= seq![inner]);
    assert forall|i: int| back <= i < text.len() implies is_plain_char(#[trigger] text[i]) by {
        assert(text[i] == b[i - back]);
    }
    let last = lemma_plain_is_read(second, text, dialect, text.len() as int);
}

/// A command substitution in backticks is found as one in parentheses is.
pub proof fn backticked_substitutions_are_handed_out(a: Seq<char>, inner: Seq<char>, b: Seq<char>)
    requires
        is_plain(a),
        is_plain(inner),
        is_plain(b),
    ensures
        shell_parse::parsed(
            a + seq!['`'] + inner + seq!['`'] + b,
            ShellDialect::Posix,
        ).substitutions == seq![inner],
{
    let dialect = ShellDialect::Posix;
    let text = a + seq!['`'] + inner + seq!['`'] + b;
    let at = a.len() as int;
    let from = at + 1;
    let close = from + inner.len();
    let back = close + 1;
    assert(text[at] == '`' && text[close] == '`');
    assert forall|i: int| 0 <= i < text.len() implies ({
        let c = #[trigger] text[i];
        c != '\'' && c != '"' && c != '\\' && c != '<'
    }) by {
        if i < a.len() {
            assert(text[i] == a[i]);
        } else if from <= i < close {
            assert(text[i] == inner[i - from]);
        } else if i >= back {
            assert(text[i] == b[i - back]);
        }
    }
    lemma_body_is_the_text(text, dialect);
    assert forall|i: int| 0 <= i < a.len() implies is_plain_char(#[trigger] text[i]) by {
        assert(text[i] == a[i]);
    }
    let first = lemma_plain_is_read(Scan::start(), text, dialect, at);
    assert forall|k: int| from <= k < close implies is_plain_char(#[trigger] text[k]) by {
        assert(text[k] == inner[k - from]);
    }
    lemma_plain_backticks(text, from, from, close);
    assert(text.subrange(from, from) =~= Seq::empty());
    assert(text.subrange(from, close) =~= inner);
    let second = first.step(text, dialect);
    shell_parse::lemma_step_advances(first, text, dialect);
    reveal_strlit("``");
    assert("``"@.len() == 2);
    assert(second.substitutions =~= seq![inner]);
    assert forall|i: int| back <= i < text.len() implies is_plain_char(#[trigger] text[i]) by {
        assert(text[i] == b[i - back]);
    }
    let last = lemma_plain_is_read(second, text, dialect, text.len() as int);
}

proof fn lemma_plain_backticks(text: Seq<char>, from: int, i: int, close: int)
    requires
        0 <= from <= i <= close < text.len(),
        text[close] == '`',
        forall|k: int| from <= k < close ==> is_plain_char(#[trigger] text[k]),
    ensures
        shell_parse::backticked(text, i, text.subrange(from, i)) == Some(
            (text.subrange(from, close), close + 1),
        ),
    decreases close - i,
{
    if i < close {
        assert(is_plain_char(text[i]));
        assert(text.subrange(from, i).push(text[i]) =~= text.subrange(from, i + 1));
        lemma_plain_backticks(text, from, i + 1, close);
    }
}

/// A comment ends with its line: nothing in it is a command, and what stands before it
/// and on the next line is parsed as if it were not there.
pub proof fn comments_end_with_their_line(
    a: Seq<char>,
    comment: Seq<char>,
    b: Seq<char>,
    dialect: ShellDialect,
)
    requires
        is_plain(a),
        is_plain(b),
        is_calm_line(comment),
    ensures
        shell_parse::parsed(
            a + seq![' ', '#'] + comment + seq!['\n'] + b,
            dialect,
        ).commands == shell_parse::parsed(a, dialect).commands + shell_parse::parsed(
            b,
            dialect,
        ).commands,
{
    let text = a + seq![' ', '#'] + comment + seq!['\n'] + b;
    let hash = a.len() as int + 1;
    let end = hash + 1 + comment.len();
    let back = end + 1;
    assert(text[hash - 1] == ' ' && text[hash] == '#' && text[end] == '\n');
    assert forall|i: int| 0 <= i < text.len() implies ({
        let c = #[trigger] text[i];
        c != '\'' && c != '"' && c != '\\' && c != '<'
    }) by {
        if i < a.len() {
            assert(text[i] == a[i]);
        } else if hash < i < end {
            assert(text[i] == comment[i - hash - 1]);
        } else if i >= back {
            assert(text[i] == b[i - back]);
        }
    }
    lemma_body_is_the_text(text, dialect);
    lemma_plain_parse(a, dialect);
    lemma_plain_parse(b, dialect);
    assert(a =~= text.take(a.len() as int));
    let opened = lemma_read_to_the_quote(text, a, dialect);
    strings::lemma_find_class_bounds(text, CharClass::Only('\n'), hash);
    let found = strings::find_class(text, CharClass::Only('\n'), hash);
    if found < end {
        if found > hash {
            assert(text[found] == comment[found - hash - 1]);
        }
    }
    assert(found == end);
    let passed = opened.step(text, dialect);
    shell_parse::lemma_step_advances(opened, text, dialect);
    assert(passed == opened.at(end));
    let next = passed.step(text, dialect);
    shell_parse::lemma_step_advances(passed, text, dialect);
    assert(next == passed.end_word().end_command().at(back));
    assert(opened.run(text, dialect) == passed.run(text, dialect));
    assert(passed.run(text, dialect) == next.run(text, dialect));
    assert(next.word =~= Seq::empty());
    assert(next.command =~= Seq::empty());
    assert forall|i: int| back <= i < text.len() implies is_plain_char(#[trigger] text[i]) by {
        assert(text[i] == b[i - back]);
    }
    let last = lemma_plain_is_read(next, text, dialect, text.len() as int);
    lemma_words_move(b, 0, b.len() as int, text, back, Seq::empty());
    assert(last.end_word().command =~= words(b));
    assert(last.run(text, dialect) == last);
    assert(shell_parse::parsed(text, dialect).commands =~= commands_of(words(a)) + commands_of(
        words(b),
    ));
}

/// Whether a text is part of one line, without quotes, backslashes and angles.
pub open spec fn is_calm_line(text: Seq<char>) -> bool {
    forall|i: int|
        0 <= i < text.len() ==> {
            let c = #[trigger] text[i];
            c != '\'' && c != '"' && c != '\\' && c != '<' && c != '\n'
        }
}

/// A substitution inside double quotes is found all the same.
pub proof fn quoted_substitutions_are_handed_out(
    a: Seq<char>,
    inner: Seq<char>,
    b: Seq<char>,
    dialect: ShellDialect,
)
    requires
        dialect != ShellDialect::Powershell,
        is_plain(a),
        is_plain(inner),
        is_plain(b),
    ensures
        shell_parse::parsed(
            a + seq![' ', '"', '$', '('] + inner + seq![')', '"', ' '] + b,
            dialect,
        ).substitutions == seq![inner],
{
    let text = a + seq![' ', '"', '$', '('] + inner + seq![')', '"', ' '] + b;
    let open = a.len() as int + 1;
    let from = open + 3;
    let close = from + inner.len();
    let back = close + 3;
    assert(text[open - 1] == ' ' && text[open] == '"' && text[open + 1] == '$' && text[open + 2]
        == '(');
    assert(text[close] == ')' && text[close + 1] == '"' && text[close + 2] == ' ');
    assert forall|i: int| 0 <= i < text.len() implies text[i] != '\\' && text[i] != '<' by {
        if i < a.len() {
            assert(text[i] == a[i]);
        } else if from <= i < close {
            assert(text[i] == inner[i - from]);
        } else if i >= back {
            assert(text[i] == b[i - back]);
        }
    }
    lemma_quoted_body(text, dialect);
    assert(a =~= text.take(a.len() as int));
    let opened = lemma_read_to_the_quote(text, a, dialect);
    let quoted = opened.step(text, dialect);
    shell_parse::lemma_step_advances(opened, text, dialect);
    assert(quoted == opened.turn(ShellQuote::Double));
    assert forall|k: int| from <= k < close implies is_plain_char(#[trigger] text[k]) by {
        assert(text[k] == inner[k - from]);
    }
    lemma_plain_parenthesis(text, from, close);
    assert(text.subrange(from, close) =~= inner);
    let taken = quoted.step(text, dialect);
    shell_parse::lemma_step_advances(quoted, text, dialect);
    assert(taken.substitutions =~= seq![inner]);
    assert(taken.index == close + 1);
    let closed = taken.step(text, dialect);
    shell_parse::lemma_step_advances(taken, text, dialect);
    assert(closed == taken.turn(ShellQuote::Unquoted));
    let spaced = closed.step(text, dialect);
    shell_parse::lemma_step_advances(closed, text, dialect);
    assert(strings::is_space(' '));
    assert(spaced == closed.end_word().at(back));
    assert(opened.run(text, dialect) == quoted.run(text, dialect));
    assert(quoted.run(text, dialect) == taken.run(text, dialect));
    assert(taken.run(text, dialect) == closed.run(text, dialect));
    assert(closed.run(text, dialect) == spaced.run(text, dialect));
    assert forall|i: int| back <= i < text.len() implies is_plain_char(#[trigger] text[i]) by {
        assert(text[i] == b[i - back]);
    }
    let last = lemma_plain_is_read(spaced, text, dialect, text.len() as int);
    assert(last.run(text, dialect) == last);
    assert(shell_parse::parsed(text, dialect).substitutions =~= seq![inner]);
}

} // verus!
