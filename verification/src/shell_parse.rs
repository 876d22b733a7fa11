//! Shell payloads as candidate commands.
//!
//! A payload is split into simple commands without treating quoted arguments,
//! comments or here-document bodies as commands. This is not a shell
//! interpreter: expansions stay opaque, except for command substitutions, which
//! are surfaced for inspection of their own.
use vstd::prelude::*;

use crate::shell_text;
use crate::shell_text::{
    remove_posix_line_continuations, strip_heredoc_bodies, strip_powershell_here_strings,
    ShellQuote,
};
use crate::strings;
use crate::strings::{char_in_class, chars_of, cut_string, same_text, CharClass};

verus! {

/// The shells whose syntax is told apart.
#[derive(Debug, Clone, Copy, PartialEq, Eq, Structural)]
pub enum ShellDialect {
    Posix,
    Powershell,
    Cmd,
}

/// The commands of a payload, each a list of words, and the texts of its
/// command substitutions.
#[derive(Debug)]
pub struct ParsedShellPayload {
    pub commands: Vec<Vec<String>>,
    pub substitutions: Vec<String>,
}

/// The model of a parsed payload.
#[verifier::ext_equal]
pub struct Payload {
    pub commands: Seq<Seq<Seq<char>>>,
    pub substitutions: Seq<Seq<char>>,
}

/// The state of the scan: what was read so far, the open command and word, and
/// where the scan stands.
#[verifier::ext_equal]
pub struct Scan {
    pub commands: Seq<Seq<Seq<char>>>,
    pub substitutions: Seq<Seq<char>>,
    pub command: Seq<Seq<char>>,
    pub word: Seq<char>,
    pub started: bool,
    pub quote: ShellQuote,
    pub index: int,
}

/// The word that stands for a redirection operator until the commands are
/// complete.
pub open spec fn redirection() -> Seq<char> {
    "__contextmink_redirection__"@
}

pub open spec fn command_texts(commands: Seq<Vec<String>>) -> Seq<Seq<Seq<char>>> {
    commands.map_values(|command: Vec<String>| strings::texts(command@))
}

impl ParsedShellPayload {
    pub open spec fn model(&self) -> Payload {
        Payload {
            commands: command_texts(self.commands@),
            substitutions: strings::texts(self.substitutions@),
        }
    }
}

/// The position of the parenthesis that closes the `depth` ones open at `i`,
/// parentheses in quotes not counted.
pub open spec fn closing_parenthesis(
    text: Seq<char>,
    i: int,
    depth: int,
    quote: ShellQuote,
) -> Option<int>
    decreases text.len() - i,
{
    if i < 0 || i >= text.len() {
        None
    } else {
        match quote {
            ShellQuote::Single => closing_parenthesis(
                text,
                i + 1,
                depth,
                if text[i] == '\'' {
                    ShellQuote::Unquoted
                } else {
                    quote
                },
            ),
            ShellQuote::Double => closing_parenthesis(
                text,
                i + 1,
                depth,
                if text[i] == '"' {
                    ShellQuote::Unquoted
                } else {
                    quote
                },
            ),
            ShellQuote::Unquoted => if text[i] == '\'' {
                closing_parenthesis(text, i + 1, depth, ShellQuote::Single)
            } else if text[i] == '"' {
                closing_parenthesis(text, i + 1, depth, ShellQuote::Double)
            } else if text[i] == '(' {
                closing_parenthesis(text, i + 1, depth + 1, quote)
            } else if text[i] == ')' {
                if depth == 1 {
                    Some(i)
                } else {
                    closing_parenthesis(text, i + 1, depth - 1, quote)
                }
            } else {
                closing_parenthesis(text, i + 1, depth, quote)
            },
        }
    }
}

/// The text in parentheses whose opening one stands before `from`, and the
/// position after the closing one.
pub open spec fn parenthesized(text: Seq<char>, from: int) -> Option<(Seq<char>, int)> {
    match closing_parenthesis(text, from, 1, ShellQuote::Unquoted) {
        Some(close) => Some((text.subrange(from, close), close + 1)),
        None => None,
    }
}

/// The text up to the closing backtick from `i` on, a backslash taken off each
/// character that it escapes, after `read`; and the position after the backtick.
pub open spec fn backticked(text: Seq<char>, i: int, read: Seq<char>) -> Option<(Seq<char>, int)>
    decreases text.len() - i,
{
    if i < 0 || i >= text.len() {
        None
    } else if text[i] == '`' {
        Some((read, i + 1))
    } else if text[i] == '\\' && i + 1 < text.len() {
        backticked(text, i + 2, read.push(text[i + 1]))
    } else {
        backticked(text, i + 1, read.push(text[i]))
    }
}

/// Whether a brace at `i` opens or closes a group of commands.
pub open spec fn group_brace(text: Seq<char>, i: int, started: bool, dialect: ShellDialect) -> bool {
    match dialect {
        ShellDialect::Cmd => false,
        ShellDialect::Powershell => true,
        ShellDialect::Posix => !started && (i + 1 >= text.len() || strings::is_space(text[i + 1])
            || text[i + 1] == ';' || text[i + 1] == '&' || text[i + 1] == '|' || text[i + 1] == '('
            || text[i + 1] == ')' || text[i + 1] == '{' || text[i + 1] == '}'),
    }
}

/// The first position from `i` on that holds neither `<` nor `>`.
pub open spec fn past_angles(text: Seq<char>, i: int) -> int
    decreases text.len() - i,
{
    if i < 0 || i >= text.len() || !(text[i] == '<' || text[i] == '>') {
        i
    } else {
        past_angles(text, i + 1)
    }
}

/// Whether `c` stands at `i`.
pub open spec fn stands_at(text: Seq<char>, i: int, c: char) -> bool {
    0 <= i < text.len() && text[i] == c
}

impl Scan {
    /// The scan that has read nothing.
    pub open spec fn start() -> Scan {
        Scan {
            commands: Seq::empty(),
            substitutions: Seq::empty(),
            command: Seq::empty(),
            word: Seq::empty(),
            started: false,
            quote: ShellQuote::Unquoted,
            index: 0,
        }
    }

    /// The character joins the open word; the scan moves on by `by`.
    pub open spec fn take(self, c: char, by: int) -> Scan {
        Scan { word: self.word.push(c), started: true, index: self.index + by, ..self }
    }

    /// The scan enters or leaves quotes, which start a word.
    pub open spec fn turn(self, quote: ShellQuote) -> Scan {
        Scan { quote, started: true, index: self.index + 1, ..self }
    }

    /// A substitution was read up to `next`; `mark` stands for it in the word.
    pub open spec fn substitute(self, found: Option<(Seq<char>, int)>, mark: Seq<char>, c: char) -> Scan {
        match found {
            Some((substitution, next)) => Scan {
                substitutions: self.substitutions.push(substitution),
                word: self.word + mark,
                started: true,
                index: next,
                ..self
            },
            None => self.take(c, 1),
        }
    }

    /// The open word, if one was started, ends the open command so far.
    pub open spec fn end_word(self) -> Scan {
        if self.started {
            Scan { command: self.command.push(self.word), word: Seq::empty(), started: false, ..self }
        } else {
            self
        }
    }

    /// The open command, if it holds a word, is complete.
    pub open spec fn end_command(self) -> Scan {
        if self.command.len() > 0 {
            Scan { commands: self.commands.push(self.command), command: Seq::empty(), ..self }
        } else {
            self
        }
    }

    /// A redirection operator stands in the open command.
    pub open spec fn redirect(self) -> Scan {
        Scan { command: self.command.push(redirection()), ..self }
    }

    pub open spec fn at(self, index: int) -> Scan {
        Scan { index, ..self }
    }

    /// The step inside double quotes.
    pub open spec fn step_double(self, text: Seq<char>, dialect: ShellDialect) -> Scan {
        let i = self.index;
        let c = text[i];
        if c == '"' {
            self.turn(ShellQuote::Unquoted)
        } else if (c == '\\' || dialect == ShellDialect::Powershell && c == '`') && i + 1
            < text.len() {
            self.take(text[i + 1], 2)
        } else if c == '$' && stands_at(text, i + 1, '(') {
            self.substitute(parenthesized(text, i + 2), "$()"@, c)
        } else if dialect == ShellDialect::Posix && c == '`' {
            self.substitute(backticked(text, i + 1, Seq::empty()), "``"@, c)
        } else {
            self.take(c, 1)
        }
    }

    /// The step outside quotes.
    pub open spec fn step_unquoted(self, text: Seq<char>, dialect: ShellDialect) -> Scan {
        let i = self.index;
        let c = text[i];
        if c == '\'' {
            self.turn(ShellQuote::Single)
        } else if c == '"' {
            self.turn(ShellQuote::Double)
        } else if escapes(c, dialect) && i + 1 < text.len() {
            self.take(text[i + 1], 2)
        } else if c == '$' && stands_at(text, i + 1, '(') {
            self.substitute(parenthesized(text, i + 2), "$()"@, c)
        } else if c == '`' && dialect == ShellDialect::Posix {
            self.substitute(backticked(text, i + 1, Seq::empty()), "``"@, c)
        } else if (c == '{' || c == '}') && group_brace(text, i, self.started, dialect) {
            self.end_word().end_command().at(i + 1)
        } else if c == '#' && !self.started {
            self.at(strings::find_class(text, CharClass::Only('\n'), i))
        } else if c == '&' && stands_at(text, i + 1, '>') {
            self.end_word().redirect().at(past_angles(text, i + 2))
        } else if c == ';' || c == '&' || c == '|' || c == '\n' || c == '(' || c == ')' {
            self.end_word().end_command().at(
                if (c == '&' || c == '|') && stands_at(text, i + 1, c) {
                    i + 2
                } else {
                    i + 1
                },
            )
        } else if c == '<' || c == '>' {
            let past = past_angles(text, i + 1);
            let next = if stands_at(text, past, '&') || stands_at(text, past, '|') {
                past + 1
            } else {
                past
            };
            if self.started && all_digits(self.word) {
                Scan { word: Seq::empty(), started: false, ..self }.redirect().at(next)
            } else {
                self.end_word().redirect().at(next)
            }
        } else if strings::is_space(c) {
            self.end_word().at(i + 1)
        } else {
            self.take(c, 1)
        }
    }

    /// What the character at the scan's position does to it.
    pub open spec fn step(self, text: Seq<char>, dialect: ShellDialect) -> Scan {
        match self.quote {
            ShellQuote::Single => if text[self.index] == '\'' {
                self.turn(ShellQuote::Unquoted)
            } else {
                self.take(text[self.index], 1)
            },
            ShellQuote::Double => self.step_double(text, dialect),
            ShellQuote::Unquoted => self.step_unquoted(text, dialect),
        }
    }

    /// The scan once the text is read to its end.
    pub open spec fn run(self, text: Seq<char>, dialect: ShellDialect) -> Scan
        decreases text.len() - self.index,
    {
        if self.index < 0 || self.index >= text.len() {
            self
        } else {
            proof {
                lemma_step_advances(self, text, dialect);
            }
            self.step(text, dialect).run(text, dialect)
        }
    }
}

/// Whether the character takes the special meaning off the one that follows.
pub open spec fn escapes(c: char, dialect: ShellDialect) -> bool {
    match dialect {
        ShellDialect::Posix => c == '\\',
        ShellDialect::Powershell => c == '\\' || c == '`',
        ShellDialect::Cmd => c == '^',
    }
}

pub open spec fn all_digits(text: Seq<char>) -> bool {
    forall|i: int| 0 <= i < text.len() ==> strings::is_digit(#[trigger] text[i])
}

/// The words of a command without its redirections; with `target`, the next
/// word is the target of one.
pub open spec fn without_redirections(words: Seq<Seq<char>>, target: bool) -> Seq<Seq<char>>
    decreases words.len(),
{
    if words.len() == 0 {
        Seq::empty()
    } else if words[0] == redirection() {
        without_redirections(words.drop_first(), true)
    } else if target {
        without_redirections(words.drop_first(), false)
    } else {
        seq![words[0]] + without_redirections(words.drop_first(), false)
    }
}

/// The payload's text once constructs whose bodies are data are taken out.
pub open spec fn payload_body(text: Seq<char>, dialect: ShellDialect) -> Seq<char> {
    match dialect {
        ShellDialect::Posix => shell_text::without_heredocs(
            shell_text::joined_lines(text),
            0,
            ShellQuote::Unquoted,
        ),
        ShellDialect::Powershell => shell_text::without_here_strings(text, 0),
        ShellDialect::Cmd => text,
    }
}

/// The commands and substitutions of a payload.
pub open spec fn parsed(text: Seq<char>, dialect: ShellDialect) -> Payload {
    let body = payload_body(text, dialect);
    let end = Scan::start().run(body, dialect).end_word().end_command();
    Payload {
        commands: end.commands.map_values(
            |command: Seq<Seq<char>>| without_redirections(command, false),
        ),
        substitutions: end.substitutions,
    }
}

proof fn lemma_past_angles_bounds(text: Seq<char>, i: int)
    requires
        0 <= i <= text.len(),
    ensures
        i <= past_angles(text, i) <= text.len(),
    decreases text.len() - i,
{
    if i < text.len() && (text[i] == '<' || text[i] == '>') {
        lemma_past_angles_bounds(text, i + 1);
    }
}

proof fn lemma_closing_parenthesis_bounds(text: Seq<char>, i: int, depth: int, quote: ShellQuote)
    requires
        0 <= i,
    ensures
        closing_parenthesis(text, i, depth, quote) matches Some(close) ==> i <= close < text.len(),
    decreases text.len() - i,
{
    if i < text.len() {
        lemma_closing_parenthesis_bounds(text, i + 1, depth, quote);
        lemma_closing_parenthesis_bounds(text, i + 1, depth, ShellQuote::Unquoted);
        lemma_closing_parenthesis_bounds(text, i + 1, depth, ShellQuote::Single);
        lemma_closing_parenthesis_bounds(text, i + 1, depth, ShellQuote::Double);
        lemma_closing_parenthesis_bounds(text, i + 1, depth + 1, quote);
        lemma_closing_parenthesis_bounds(text, i + 1, depth - 1, quote);
    }
}

proof fn lemma_backticked_bounds(text: Seq<char>, i: int, read: Seq<char>)
    requires
        0 <= i,
    ensures
        backticked(text, i, read) matches Some((_, next)) ==> i < next <= text.len(),
    decreases text.len() - i,
{
    if i < text.len() {
        if text[i] == '`' {
        } else if text[i] == '\\' && i + 1 < text.len() {
            lemma_backticked_bounds(text, i + 2, read.push(text[i + 1]));
        } else {
            lemma_backticked_bounds(text, i + 1, read.push(text[i]));
        }
    }
}

/// Every step of the scan moves it on, and never past the end.
pub proof fn lemma_step_advances(scan: Scan, text: Seq<char>, dialect: ShellDialect)
    requires
        0 <= scan.index < text.len(),
    ensures
        scan.index < scan.step(text, dialect).index <= text.len(),
{
    let i = scan.index;
    if i + 2 <= text.len() {
        lemma_closing_parenthesis_bounds(text, i + 2, 1, ShellQuote::Unquoted);
        lemma_past_angles_bounds(text, i + 2);
    }
    lemma_backticked_bounds(text, i + 1, Seq::empty());
    lemma_past_angles_bounds(text, i + 1);
    strings::lemma_find_class_bounds(text, CharClass::Only('\n'), i);
}

proof fn lemma_backticked_len(text: Seq<char>, i: int, read: Seq<char>)
    requires
        0 <= i,
    ensures
        backticked(text, i, read) matches Some((value, next)) ==> value.len() + i < next
            + read.len(),
    decreases text.len() - i,
{
    if i < text.len() {
        if text[i] == '`' {
        } else if text[i] == '\\' && i + 1 < text.len() {
            lemma_backticked_len(text, i + 2, read.push(text[i + 1]));
        } else {
            lemma_backticked_len(text, i + 1, read.push(text[i]));
        }
    }
}

spec fn shorter_than(parts: Seq<Seq<char>>, len: nat) -> bool {
    forall|k: int| 0 <= k < parts.len() ==> (#[trigger] parts[k]).len() < len
}

proof fn lemma_step_substitutions(scan: Scan, text: Seq<char>, dialect: ShellDialect)
    requires
        0 <= scan.index < text.len(),
        shorter_than(scan.substitutions, text.len()),
    ensures
        shorter_than(scan.step(text, dialect).substitutions, text.len()),
{
    let i = scan.index;
    if i + 2 <= text.len() {
        lemma_closing_parenthesis_bounds(text, i + 2, 1, ShellQuote::Unquoted);
    }
    lemma_backticked_bounds(text, i + 1, Seq::empty());
    lemma_backticked_len(text, i + 1, Seq::empty());
}

proof fn lemma_run_substitutions(scan: Scan, text: Seq<char>, dialect: ShellDialect)
    requires
        0 <= scan.index,
        shorter_than(scan.substitutions, text.len()),
    ensures
        shorter_than(scan.run(text, dialect).substitutions, text.len()),
    decreases text.len() - scan.index,
{
    if scan.index < text.len() {
        lemma_step_advances(scan, text, dialect);
        lemma_step_substitutions(scan, text, dialect);
        lemma_run_substitutions(scan.step(text, dialect), text, dialect);
    }
}

/// Every command substitution is shorter than the payload that it stands in.
pub proof fn lemma_substitutions_are_shorter(text: Seq<char>, dialect: ShellDialect)
    ensures
        forall|k: int|
            0 <= k < parsed(text, dialect).substitutions.len() ==> (#[trigger] parsed(
                text,
                dialect,
            ).substitutions[k]).len() < text.len(),
{
    let body = payload_body(text, dialect);
    match dialect {
        ShellDialect::Posix => {
            let once = shell_text::without_needle(text, "\\\r\n"@, 0);
            let joined = shell_text::joined_lines(text);
            shell_text::lemma_without_needle_len(text, "\\\r\n"@, 0);
            shell_text::lemma_without_needle_len(once, "\\\n"@, 0);
            shell_text::lemma_without_heredocs_len(joined, 0, ShellQuote::Unquoted);
        },
        ShellDialect::Powershell => {
            shell_text::lemma_without_here_strings_len(text, 0);
        },
        ShellDialect::Cmd => {},
    }
    lemma_run_substitutions(Scan::start(), body, dialect);
}

proof fn lemma_texts_push(tokens: Seq<String>, token: String)
    ensures
        strings::texts(tokens.push(token)) == strings::texts(tokens).push(token@),
{
    assert(strings::texts(tokens.push(token)) =~= strings::texts(tokens).push(token@));
}

proof fn lemma_command_texts_push(commands: Seq<Vec<String>>, command: Vec<String>)
    ensures
        command_texts(commands.push(command)) == command_texts(commands).push(
            strings::texts(command@),
        ),
{
    assert(command_texts(commands.push(command)) =~= command_texts(commands).push(
        strings::texts(command@),
    ));
}

/// The scan at work.
struct ShellScan {
    commands: Vec<Vec<String>>,
    substitutions: Vec<String>,
    command: Vec<String>,
    word: String,
    started: bool,
    quote: ShellQuote,
    index: usize,
}

impl ShellScan {
    spec fn model(&self) -> Scan {
        Scan {
            commands: command_texts(self.commands@),
            substitutions: strings::texts(self.substitutions@),
            command: strings::texts(self.command@),
            word: self.word@,
            started: self.started,
            quote: self.quote,
            index: self.index as int,
        }
    }

    fn new() -> (scan: ShellScan)
        ensures
            scan.model() == Scan::start(),
    {
        let scan = ShellScan {
            commands: Vec::new(),
            substitutions: Vec::new(),
            command: Vec::new(),
            word: String::new(),
            started: false,
            quote: ShellQuote::Unquoted,
            index: 0,
        };
        assert(scan.model() =~= Scan::start());
        scan
    }

    fn take(&mut self, c: char, by: usize)
        requires
            old(self).index + by <= usize::MAX,
        ensures
            final(self).model() == old(self).model().take(c, by as int),
    {
        self.word.push(c);
        self.started = true;
        self.index += by;
        assert(self.model() =~= old(self).model().take(c, by as int));
    }

    fn turn(&mut self, quote: ShellQuote)
        requires
            old(self).index < usize::MAX,
        ensures
            final(self).model() == old(self).model().turn(quote),
    {
        self.quote = quote;
        self.started = true;
        self.index += 1;
        assert(self.model() =~= old(self).model().turn(quote));
    }

    fn substitute(&mut self, found: Option<(String, usize)>, mark: &str, c: char)
        requires
            old(self).index < usize::MAX,
        ensures
            final(self).model() == old(self).model().substitute(
                match found {
                    Some((substitution, next)) => Some((substitution@, next as int)),
                    None => None,
                },
                mark@,
                c,
            ),
    {
        match found {
            Some((substitution, next)) => {
                proof {
                    lemma_texts_push(self.substitutions@, substitution);
                }
                self.substitutions.push(substitution);
                self.word.append(mark);
                self.started = true;
                self.index = next;
            },
            None => {
                self.take(c, 1);
            },
        }
    }

    fn end_word(&mut self)
        ensures
            final(self).model() == old(self).model().end_word(),
            final(self).index == old(self).index,
    {
        flush_shell_word(&mut self.word, &mut self.started, &mut self.command);
        assert(self.model() =~= old(self).model().end_word());
    }

    fn end_command(&mut self)
        ensures
            final(self).model() == old(self).model().end_command(),
            final(self).index == old(self).index,
    {
        flush_shell_command(&mut self.command, &mut self.commands);
        assert(self.model() =~= old(self).model().end_command());
    }

    fn redirect(&mut self)
        ensures
            final(self).model() == old(self).model().redirect(),
            final(self).index == old(self).index,
    {
        let mark = "__contextmink_redirection__".to_owned();
        proof {
            lemma_texts_push(self.command@, mark);
        }
        self.command.push(mark);
        assert(self.model() =~= old(self).model().redirect());
    }

    fn step_double(&mut self, chars: &[char], dialect: ShellDialect)
        requires
            old(self).index < chars.len(),
        ensures
            final(self).model() == old(self).model().step_double(chars@, dialect),
    {
        let i = self.index;
        let c = chars[i];
        if c == '"' {
            self.turn(ShellQuote::Unquoted);
        } else if (c == '\\' || (dialect == ShellDialect::Powershell && c == '`')) && i + 1
            < chars.len() {
            self.take(chars[i + 1], 2);
        } else if c == '$' && i + 1 < chars.len() && chars[i + 1] == '(' {
            self.substitute(extract_parenthesized(chars, i + 2), "$()", c);
        } else if dialect == ShellDialect::Posix && c == '`' {
            self.substitute(extract_backticks(chars, i + 1), "``", c);
        } else {
            self.take(c, 1);
        }
    }

    fn step_unquoted(&mut self, chars: &[char], dialect: ShellDialect)
        requires
            old(self).index < chars.len(),
        ensures
            final(self).model() == old(self).model().step_unquoted(chars@, dialect),
    {
        let i = self.index;
        let c = chars[i];
        if c == '\'' {
            self.turn(ShellQuote::Single);
        } else if c == '"' {
            self.turn(ShellQuote::Double);
        } else if escapes_next(c, dialect) && i + 1 < chars.len() {
            self.take(chars[i + 1], 2);
        } else if c == '$' && i + 1 < chars.len() && chars[i + 1] == '(' {
            self.substitute(extract_parenthesized(chars, i + 2), "$()", c);
        } else if c == '`' && dialect == ShellDialect::Posix {
            self.substitute(extract_backticks(chars, i + 1), "``", c);
        } else if (c == '{' || c == '}') && shell_group_brace_is_boundary(
            chars,
            i,
            self.started,
            dialect,
        ) {
            self.end_word();
            self.end_command();
            self.index = i + 1;
        } else if c == '#' && !self.started {
            self.index = strings::find_class_from(chars, CharClass::Only('\n'), i);
        } else if c == '&' && i + 1 < chars.len() && chars[i + 1] == '>' {
            self.end_word();
            self.redirect();
            self.index = skip_angles(chars, i + 2);
        } else if c == ';' || c == '&' || c == '|' || c == '\n' || c == '(' || c == ')' {
            self.end_word();
            self.end_command();
            if (c == '&' || c == '|') && i + 1 < chars.len() && chars[i + 1] == c {
                self.index = i + 2;
            } else {
                self.index = i + 1;
            }
        } else if c == '<' || c == '>' {
            if self.started && only_digits(&self.word) {
                self.word = String::new();
                self.started = false;
            } else {
                self.end_word();
            }
            self.redirect();
            let past = skip_angles(chars, i + 1);
            if past < chars.len() && (chars[past] == '&' || chars[past] == '|') {
                self.index = past + 1;
            } else {
                self.index = past;
            }
        } else if char_in_class(CharClass::Space, c) {
            self.end_word();
            self.index = i + 1;
        } else {
            self.take(c, 1);
        }
        assert(self.model() =~= old(self).model().step_unquoted(chars@, dialect));
    }

    fn step(&mut self, chars: &[char], dialect: ShellDialect)
        requires
            old(self).index < chars.len(),
        ensures
            final(self).model() == old(self).model().step(chars@, dialect),
    {
        match self.quote {
            ShellQuote::Single => {
                let c = chars[self.index];
                if c == '\'' {
                    self.turn(ShellQuote::Unquoted);
                } else {
                    self.take(c, 1);
                }
            },
            ShellQuote::Double => {
                self.step_double(chars, dialect);
            },
            ShellQuote::Unquoted => {
                self.step_unquoted(chars, dialect);
            },
        }
    }
}

fn escapes_next(c: char, dialect: ShellDialect) -> (held: bool)
    ensures
        held == escapes(c, dialect),
{
    match dialect {
        ShellDialect::Posix => c == '\\',
        ShellDialect::Powershell => c == '\\' || c == '`',
        ShellDialect::Cmd => c == '^',
    }
}

fn only_digits(text: &String) -> (held: bool)
    ensures
        held == all_digits(text@),
{
    let chars = chars_of(text.as_str());
    let mut i: usize = 0;
    while i < chars.len()
        invariant
            i <= chars.len(),
            chars@ == text@,
            forall|k: int| 0 <= k < i ==> strings::is_digit(#[trigger] text@[k]),
        decreases chars.len() - i,
    {
        if !char_in_class(CharClass::Digit, chars[i]) {
            assert(!strings::is_digit(text@[i as int]));
            return false;
        }
        i += 1;
    }
    true
}

fn skip_angles(chars: &[char], from: usize) -> (past: usize)
    requires
        from <= chars.len(),
    ensures
        past == past_angles(chars@, from as int),
        from <= past <= chars.len(),
{
    let mut past: usize = from;
    while past < chars.len() && (chars[past] == '<' || chars[past] == '>')
        invariant
            from <= past <= chars.len(),
            past_angles(chars@, past as int) == past_angles(chars@, from as int),
        decreases chars.len() - past,
    {
        past += 1;
    }
    past
}

/// Whether a brace opens or closes a group of commands rather than standing in
/// a word.
pub fn shell_group_brace_is_boundary(
    chars: &[char],
    index: usize,
    word_started: bool,
    dialect: ShellDialect,
) -> (boundary: bool)
    requires
        index < chars.len(),
    ensures
        boundary == group_brace(chars@, index as int, word_started, dialect),
{
    match dialect {
        ShellDialect::Cmd => false,
        ShellDialect::Powershell => true,
        ShellDialect::Posix => {
            if word_started {
                false
            } else if index + 1 >= chars.len() {
                true
            } else {
                let next = chars[index + 1];
                char_in_class(CharClass::Space, next) || next == ';' || next == '&' || next == '|'
                    || next == '(' || next == ')' || next == '{' || next == '}'
            }
        },
    }
}

/// Ends the open word: it joins the command, if one was started.
pub fn flush_shell_word(word: &mut String, started: &mut bool, command: &mut Vec<String>)
    ensures
        *old(started) ==> {
            &&& strings::texts(final(command)@) == strings::texts(old(command)@).push(old(word)@)
            &&& final(word)@ == Seq::<char>::empty()
            &&& !*final(started)
        },
        !*old(started) ==> {
            &&& final(command)@ == old(command)@
            &&& final(word)@ == old(word)@
            &&& !*final(started)
        },
{
    if *started {
        let done = word.clone();
        proof {
            lemma_texts_push(command@, done);
        }
        command.push(done);
        *word = String::new();
        *started = false;
    }
}

/// Ends the open command: it joins the commands, if it holds a word.
pub fn flush_shell_command(command: &mut Vec<String>, commands: &mut Vec<Vec<String>>)
    ensures
        old(command)@.len() > 0 ==> {
            &&& command_texts(final(commands)@) == command_texts(old(commands)@).push(
                strings::texts(old(command)@),
            )
            &&& final(command)@ == Seq::<String>::empty()
        },
        old(command)@.len() == 0 ==> {
            &&& final(commands)@ == old(commands)@
            &&& final(command)@ == old(command)@
        },
{
    if command.len() > 0 {
        let done = strings::copy_strings(command);
        proof {
            lemma_command_texts_push(commands@, done);
        }
        commands.push(done);
        *command = Vec::new();
    }
}

/// The text of a command substitution whose opening parenthesis stands before
/// `index`, and the position after its closing one.
pub fn extract_parenthesized(chars: &[char], index: usize) -> (found: Option<(String, usize)>)
    requires
        index <= chars.len(),
    ensures
        match found {
            Some((text, next)) => parenthesized(chars@, index as int) == Some(
                (text@, next as int),
            ),
            None => parenthesized(chars@, index as int) is None,
        },
{
    let mut depth: u128 = 1;
    let mut quote = ShellQuote::Unquoted;
    let mut at: usize = index;
    let ghost close = closing_parenthesis(chars@, index as int, 1, ShellQuote::Unquoted);
    while at < chars.len()
        invariant
            index <= at <= chars.len(),
            1 <= depth <= at + 1,
            closing_parenthesis(chars@, at as int, depth as int, quote) == close,
            close == closing_parenthesis(chars@, index as int, 1, ShellQuote::Unquoted),
        decreases chars.len() - at,
    {
        let c = chars[at];
        match quote {
            ShellQuote::Single => {
                if c == '\'' {
                    quote = ShellQuote::Unquoted;
                }
            },
            ShellQuote::Double => {
                if c == '"' {
                    quote = ShellQuote::Unquoted;
                }
            },
            ShellQuote::Unquoted => {
                if c == '\'' {
                    quote = ShellQuote::Single;
                } else if c == '"' {
                    quote = ShellQuote::Double;
                } else if c == '(' {
                    depth += 1;
                } else if c == ')' {
                    if depth == 1 {
                        return Some((cut_string(chars, index, at), at + 1));
                    }
                    depth -= 1;
                }
            },
        }
        at += 1;
    }
    None
}

/// The text of a command substitution in backticks, whose opening one stands
/// before `index`, and the position after the closing one.
pub fn extract_backticks(chars: &[char], index: usize) -> (found: Option<(String, usize)>)
    requires
        index <= chars.len(),
    ensures
        match found {
            Some((text, next)) => backticked(chars@, index as int, Seq::empty()) == Some(
                (text@, next as int),
            ),
            None => backticked(chars@, index as int, Seq::empty()) is None,
        },
{
    let mut text = String::new();
    let mut at: usize = index;
    while at < chars.len()
        invariant
            index <= at <= chars.len(),
            backticked(chars@, at as int, text@) == backticked(
                chars@,
                index as int,
                Seq::empty(),
            ),
        decreases chars.len() - at,
    {
        let c = chars[at];
        if c == '`' {
            return Some((text, at + 1));
        }
        if c == '\\' && at + 1 < chars.len() {
            text.push(chars[at + 1]);
            at += 2;
        } else {
            text.push(c);
            at += 1;
        }
    }
    None
}

/// The words of a command without its redirections and their targets.
fn drop_redirections(command: &Vec<String>) -> (kept: Vec<String>)
    ensures
        strings::texts(kept@) == without_redirections(strings::texts(command@), false),
{
    let ghost words = strings::texts(command@);
    let mut kept: Vec<String> = Vec::new();
    let mut target = false;
    let mut i: usize = 0;
    assert(words.skip(0) =~= words);
    assert(strings::texts(kept@) + without_redirections(words, false) =~= without_redirections(
        words,
        false,
    ));
    while i < command.len()
        invariant
            i <= command.len(),
            words == strings::texts(command@),
            strings::texts(kept@) + without_redirections(words.skip(i as int), target)
                == without_redirections(words, false),
        decreases command.len() - i,
    {
        let ghost left = words.skip(i as int);
        assert(left[0] == command@[i as int]@);
        assert(left.drop_first() =~= words.skip(i + 1));
        if same_text(command[i].as_str(), "__contextmink_redirection__") {
            target = true;
        } else if target {
            target = false;
        } else {
            let ghost before = kept@;
            let word = command[i].clone();
            proof {
                lemma_texts_push(kept@, word);
            }
            kept.push(word);
            assert(strings::texts(kept@) + without_redirections(words.skip(i + 1), false)
                =~= strings::texts(before) + (seq![left[0]] + without_redirections(
                words.skip(i + 1),
                false,
            )));
        }
        i += 1;
    }
    assert(strings::texts(kept@) + without_redirections(words.skip(i as int), target)
        =~= strings::texts(kept@));
    kept
}

/// The commands and command substitutions of a shell payload.
pub fn parse_shell_payload(text: &str, dialect: ShellDialect) -> (payload: ParsedShellPayload)
    ensures
        payload.model() == parsed(text@, dialect),
{
    let body = match dialect {
        ShellDialect::Posix => strip_heredoc_bodies(
            remove_posix_line_continuations(text).as_str(),
        ),
        ShellDialect::Powershell => strip_powershell_here_strings(text),
        ShellDialect::Cmd => text.to_owned(),
    };
    let chars = chars_of(body.as_str());
    let mut scan = ShellScan::new();
    while scan.index < chars.len()
        invariant
            scan.index <= chars.len(),
            scan.model().run(chars@, dialect) == Scan::start().run(chars@, dialect),
        decreases chars.len() - scan.index,
    {
        proof {
            lemma_step_advances(scan.model(), chars@, dialect);
        }
        scan.step(&chars, dialect);
    }
    scan.end_word();
    scan.end_command();
    let ghost end = scan.model();
    let mut commands: Vec<Vec<String>> = Vec::new();
    let mut i: usize = 0;
    let ghost wanted = end.commands.map_values(
        |command: Seq<Seq<char>>| without_redirections(command, false),
    );
    while i < scan.commands.len()
        invariant
            i <= scan.commands.len(),
            end.commands == command_texts(scan.commands@),
            wanted == end.commands.map_values(
                |command: Seq<Seq<char>>| without_redirections(command, false),
            ),
            command_texts(commands@) == wanted.take(i as int),
        decreases scan.commands.len() - i,
    {
        let kept = drop_redirections(&scan.commands[i]);
        proof {
            lemma_command_texts_push(commands@, kept);
        }
        commands.push(kept);
        assert(wanted.take(i as int + 1) =~= wanted.take(i as int).push(wanted[i as int]));
        i += 1;
    }
    assert(wanted.take(i as int) =~= wanted);
    let payload = ParsedShellPayload { commands, substitutions: scan.substitutions };
    assert(payload.model() =~= parsed(text@, dialect));
    payload
}

impl ShellDialect {
    /// The argv that hands a command text to the dialect's shell.
    pub fn command_argv(self, command: &str) -> (argv: Vec<String>)
        ensures
            strings::texts(argv@) == match self {
                ShellDialect::Posix => seq!["sh"@, "-c"@, command@],
                ShellDialect::Powershell => seq!["powershell"@, "-Command"@, command@],
                ShellDialect::Cmd => seq!["cmd"@, "/c"@, command@],
            },
    {
        let (program, flag) = match self {
            ShellDialect::Posix => ("sh", "-c"),
            ShellDialect::Powershell => ("powershell", "-Command"),
            ShellDialect::Cmd => ("cmd", "/c"),
        };
        let argv: Vec<String> = vec![program.to_owned(), flag.to_owned(), command.to_owned()];
        assert(strings::texts(argv@) =~= seq![program@, flag@, command@]);
        argv
    }

    /// The dialect's name on the command line.
    pub fn cli_name(self) -> (name: &'static str)
        ensures
            name@ == match self {
                ShellDialect::Posix => "posix"@,
                ShellDialect::Powershell => "powershell"@,
                ShellDialect::Cmd => "cmd"@,
            },
    {
        match self {
            ShellDialect::Posix => "posix",
            ShellDialect::Powershell => "powershell",
            ShellDialect::Cmd => "cmd",
        }
    }
}

} // verus!
