//! Which word of a command is the program it runs.
//!
//! Assignments, shell keywords and transparent wrappers (`env`, `sudo`, `xargs`
//! and the like, with their options) stand before it.
use vstd::prelude::*;

use crate::shell_parse::ShellDialect;
use crate::strings;
use crate::strings::{
    chars_of, contains, cut_string, same_text, same_text_ignoring_case, starts_with, strip_prefix,
    CharClass,
};

verus! {

/// A wrapper whose options stand between it and the command that it runs.
#[derive(Debug, Clone, Copy, PartialEq, Eq, Structural)]
pub enum Wrapper {
    Env,
    Command,
    Sudo,
    Exec,
    Time,
    Timeout,
    Stdbuf,
    Setsid,
    Doas,
    Xargs,
}

/// What a word among a wrapper's options is.
#[derive(Debug, Clone, Copy, PartialEq, Eq, Structural)]
pub enum OptionKind {
    /// The end of the options.
    End,
    /// An option that stands alone.
    Flag,
    /// An option whose value is the next word.
    Value,
    /// An option under which no command runs, or one that is not known.
    Refuse,
    /// The first word of the wrapped command.
    Operand,
}

/// A shell variable or parameter name.
pub open spec fn is_name(text: Seq<char>) -> bool {
    &&& text.len() > 0
    &&& !strings::is_digit(text[0])
    &&& forall|i: int|
        0 <= i < text.len() ==> (#[trigger] text[i] == '_' || strings::is_alphanumeric(text[i]))
}

/// A word of the form `NAME=value`.
pub open spec fn is_assignment(word: Seq<char>) -> bool {
    match strings::split_at_first(word, CharClass::Only('=')) {
        Some((name, _)) => is_name(name),
        None => false,
    }
}

/// The program that a word names: its last path component without extension and
/// without a leading `@`, in lower case.
pub open spec fn program_stem(word: Seq<char>) -> Seq<char> {
    let bare = strings::trim_end(
        strings::trim_start(word, CharClass::Only('@')),
        CharClass::Separator,
    );
    let leaf = bare.skip(strings::rfind_class(bare, CharClass::Separator, bare.len() as int));
    let dot = strings::rfind_class(leaf, CharClass::Only('.'), leaf.len() as int);
    strings::lower_text(
        if dot > 0 {
            leaf.take(dot - 1)
        } else {
            leaf
        },
    )
}

pub open spec fn is_option(word: Seq<char>) -> bool {
    word.len() > 0 && word[0] == '-'
}

pub open spec fn asks_for_help(word: Seq<char>) -> bool {
    word == "--help"@ || word == "--version"@
}

/// The wrapper that a program stem names.
pub open spec fn wrapper_named(stem: Seq<char>) -> Option<Wrapper> {
    if stem == "env"@ {
        Some(Wrapper::Env)
    } else if stem == "command"@ {
        Some(Wrapper::Command)
    } else if stem == "sudo"@ {
        Some(Wrapper::Sudo)
    } else if stem == "exec"@ {
        Some(Wrapper::Exec)
    } else if stem == "time"@ {
        Some(Wrapper::Time)
    } else if stem == "timeout"@ {
        Some(Wrapper::Timeout)
    } else if stem == "stdbuf"@ {
        Some(Wrapper::Stdbuf)
    } else if stem == "setsid"@ {
        Some(Wrapper::Setsid)
    } else if stem == "doas"@ {
        Some(Wrapper::Doas)
    } else if stem == "xargs"@ {
        Some(Wrapper::Xargs)
    } else {
        None
    }
}

/// Options of the wrapper whose value is the next word.
pub open spec fn takes_value(wrapper: Wrapper, word: Seq<char>) -> bool {
    match wrapper {
        Wrapper::Env => word == "-u"@ || word == "--unset"@ || word == "-C"@ || word == "--chdir"@,
        Wrapper::Sudo => word == "-u"@ || word == "--user"@ || word == "-g"@ || word == "--group"@
            || word == "-h"@ || word == "--host"@ || word == "-p"@ || word == "--prompt"@ || word
            == "-C"@ || word == "--close-from"@ || word == "-R"@ || word == "--chroot"@ || word
            == "-D"@ || word == "--chdir"@,
        Wrapper::Exec => word == "-a"@ || word == "--argv0"@,
        Wrapper::Time => word == "-f"@ || word == "--format"@ || word == "-o"@ || word
            == "--output"@,
        Wrapper::Timeout => word == "-k"@ || word == "--kill-after"@ || word == "-s"@ || word
            == "--signal"@,
        Wrapper::Stdbuf => word == "-i"@ || word == "-o"@ || word == "-e"@ || word == "--input"@
            || word == "--output"@ || word == "--error"@,
        Wrapper::Doas => word == "-a"@ || word == "-C"@ || word == "-u"@,
        Wrapper::Xargs => word == "-a"@ || word == "--arg-file"@ || word == "-d"@ || word
            == "--delimiter"@ || word == "-E"@ || word == "-I"@ || word == "-L"@ || word == "-n"@
            || word == "-P"@ || word == "-s"@,
        Wrapper::Command | Wrapper::Setsid => false,
    }
}

/// Options of the wrapper that stand alone and are known by name.
pub open spec fn is_known_flag(wrapper: Wrapper, word: Seq<char>) -> bool {
    match wrapper {
        Wrapper::Exec => word == "-c"@ || word == "-l"@ || word == "-cl"@ || word == "-lc"@,
        Wrapper::Time => word == "-p"@ || word == "-a"@ || word == "--append"@ || word == "-v"@
            || word == "--verbose"@ || word == "-q"@ || word == "--quiet"@
            || "--format="@.is_prefix_of(word) || "--output="@.is_prefix_of(word),
        Wrapper::Timeout => word == "--preserve-status"@ || word == "--foreground"@ || word
            == "-v"@ || word == "--verbose"@ || "--kill-after="@.is_prefix_of(word)
            || "--signal="@.is_prefix_of(word) || "-k"@.is_prefix_of(word) || "-s"@.is_prefix_of(
            word,
        ),
        Wrapper::Stdbuf => "-i"@.is_prefix_of(word) || "-o"@.is_prefix_of(word)
            || "-e"@.is_prefix_of(word) || "--input="@.is_prefix_of(word)
            || "--output="@.is_prefix_of(word) || "--error="@.is_prefix_of(word),
        Wrapper::Setsid => word == "-c"@ || word == "--ctty"@ || word == "-f"@ || word == "--fork"@
            || word == "-w"@ || word == "--wait"@,
        Wrapper::Doas => word == "-L"@ || word == "-n"@ || word == "-s"@,
        Wrapper::Env | Wrapper::Command | Wrapper::Sudo | Wrapper::Xargs => false,
    }
}

/// Whether the wrapper refuses options that are not known by name.
pub open spec fn is_strict(wrapper: Wrapper) -> bool {
    match wrapper {
        Wrapper::Env | Wrapper::Command | Wrapper::Sudo | Wrapper::Xargs => false,
        _ => true,
    }
}

/// Whether the wrapper has help options that run nothing.
pub open spec fn has_help(wrapper: Wrapper) -> bool {
    match wrapper {
        Wrapper::Time | Wrapper::Timeout | Wrapper::Stdbuf | Wrapper::Setsid => true,
        _ => false,
    }
}

/// What `word` is among the options of `wrapper`.
pub open spec fn option_kind(wrapper: Wrapper, word: Seq<char>) -> OptionKind {
    if word == "--"@ {
        OptionKind::End
    } else if wrapper == Wrapper::Env && is_assignment(word) {
        OptionKind::Flag
    } else if wrapper == Wrapper::Command && word == "-"@ {
        OptionKind::Operand
    } else if wrapper == Wrapper::Command && (word == "-v"@ || word == "-V"@) {
        OptionKind::Refuse
    } else if has_help(wrapper) && asks_for_help(word) {
        OptionKind::Refuse
    } else if takes_value(wrapper, word) {
        OptionKind::Value
    } else if is_known_flag(wrapper, word) {
        OptionKind::Flag
    } else if is_option(word) {
        if is_strict(wrapper) {
            OptionKind::Refuse
        } else {
            OptionKind::Flag
        }
    } else {
        OptionKind::Operand
    }
}

/// `i`, or the number of words where `i` lies beyond them.
pub open spec fn within(words: Seq<Seq<char>>, i: int) -> int {
    if i <= words.len() {
        i
    } else {
        words.len() as int
    }
}

/// Where the command behind the wrapper's options starts; `None` where an option
/// keeps the wrapper from running one.
pub open spec fn past_options(words: Seq<Seq<char>>, wrapper: Wrapper, i: int) -> Option<int>
    decreases words.len() - i,
{
    if i < 0 || i >= words.len() {
        Some(words.len() as int)
    } else {
        match option_kind(wrapper, words[i]) {
            OptionKind::End => Some(i + 1),
            OptionKind::Flag => past_options(words, wrapper, i + 1),
            OptionKind::Value => past_options(words, wrapper, within(words, i + 2)),
            OptionKind::Refuse => None,
            OptionKind::Operand => Some(i),
        }
    }
}

/// The first word from `i` on that reads `do`, or the number of words.
pub open spec fn find_do(words: Seq<Seq<char>>, i: int) -> int
    decreases words.len() - i,
{
    if i < 0 || i >= words.len() {
        words.len() as int
    } else if strings::same_ignoring_case(words[i], "do"@) {
        i
    } else {
        find_do(words, i + 1)
    }
}

/// The first word from `i` on that is neither `/i` nor `not`.
pub open spec fn past_if_modifiers(words: Seq<Seq<char>>, i: int) -> int
    decreases words.len() - i,
{
    if i < 0 || i >= words.len() {
        words.len() as int
    } else if strings::same_ignoring_case(words[i], "/i"@) || strings::same_ignoring_case(
        words[i],
        "not"@,
    ) {
        past_if_modifiers(words, i + 1)
    } else {
        i
    }
}

pub open spec fn is_unary_condition(word: Seq<char>) -> bool {
    strings::same_ignoring_case(word, "exist"@) || strings::same_ignoring_case(word, "defined"@)
        || strings::same_ignoring_case(word, "errorlevel"@) || strings::same_ignoring_case(
        word,
        "cmdextversion"@,
    )
}

pub open spec fn is_comparison(word: Seq<char>) -> bool {
    strings::same_ignoring_case(word, "=="@) || strings::same_ignoring_case(word, "equ"@)
        || strings::same_ignoring_case(word, "neq"@) || strings::same_ignoring_case(word, "lss"@)
        || strings::same_ignoring_case(word, "leq"@) || strings::same_ignoring_case(word, "gtr"@)
        || strings::same_ignoring_case(word, "geq"@)
}

/// Where the command that a `cmd` condition guards starts; the condition starts
/// at `i`.
pub open spec fn past_cmd_condition(words: Seq<Seq<char>>, i: int) -> int {
    let at = past_if_modifiers(words, i);
    if at >= words.len() {
        at
    } else if is_unary_condition(words[at]) {
        within(words, at + 2)
    } else if at + 1 < words.len() && is_comparison(words[at + 1]) {
        within(words, at + 3)
    } else if strings::contains_text(words[at], "=="@) {
        at + 1
    } else {
        at
    }
}

/// A shell keyword, or a wrapper without options, behind which the command goes
/// on.
pub open spec fn is_transparent(stem: Seq<char>, dialect: ShellDialect) -> bool {
    stem == "then"@ || stem == "else"@ || stem == "elif"@ || stem == "elseif"@ || stem == "do"@
        || stem == "!"@ || stem == "while"@ || stem == "until"@ || stem == "nohup"@ || stem
        == "chronic"@ || (stem == "call"@ && dialect == ShellDialect::Cmd)
}

/// Where the search for the program goes on behind the word at `i`: `Some(i)`
/// where that word is the program, `None` where the command runs none.
pub open spec fn past_wrapper(words: Seq<Seq<char>>, dialect: ShellDialect, i: int) -> Option<int> {
    let stem = program_stem(words[i]);
    if is_transparent(stem, dialect) {
        Some(i + 1)
    } else if stem == "if"@ {
        Some(
            if dialect == ShellDialect::Cmd {
                past_cmd_condition(words, i + 1)
            } else {
                i + 1
            },
        )
    } else if stem == "for"@ || stem == "select"@ {
        let at = find_do(words, i);
        if at < words.len() {
            Some(at + 1)
        } else {
            None
        }
    } else if stem == "nice"@ {
        Some(
            if i + 1 < words.len() && words[i + 1] == "-n"@ {
                within(words, i + 3)
            } else if i + 1 < words.len() && is_option(words[i + 1]) {
                i + 2
            } else {
                i + 1
            },
        )
    } else {
        match wrapper_named(stem) {
            None => Some(i),
            Some(wrapper) => match past_options(words, wrapper, i + 1) {
                None => None,
                // The first operand of `timeout` is its duration.
                Some(at) => Some(
                    if wrapper == Wrapper::Timeout {
                        within(words, at + 1)
                    } else {
                        at
                    },
                ),
            },
        }
    }
}

/// The program of the command whose words are read from `i` on.
pub open spec fn program_from(words: Seq<Seq<char>>, dialect: ShellDialect, i: int) -> Option<int>
    decreases words.len() - i,
{
    if i < 0 || i >= words.len() {
        None
    } else {
        proof {
            lemma_past_wrapper_bounds(words, dialect, i);
        }
        match past_wrapper(words, dialect, i) {
            None => None,
            Some(next) => if next == i {
                Some(i)
            } else {
                program_from(words, dialect, next)
            },
        }
    }
}

/// The first word from `i` on that is no assignment.
pub open spec fn past_assignments(words: Seq<Seq<char>>, i: int) -> int
    decreases words.len() - i,
{
    if i < 0 || i >= words.len() {
        words.len() as int
    } else if is_assignment(words[i]) {
        past_assignments(words, i + 1)
    } else {
        i
    }
}

/// The position of the program that a command runs.
pub open spec fn program_index(words: Seq<Seq<char>>, dialect: ShellDialect) -> Option<int> {
    program_from(words, dialect, past_assignments(words, 0))
}

/// The text that `env` is asked to split into a command, `env` being expected at
/// `i`.
pub open spec fn env_payload(words: Seq<Seq<char>>, i: int) -> Option<Seq<char>>
    decreases words.len() - i, 0int,
{
    if i < 0 || i >= words.len() || program_stem(words[i]) != "env"@ {
        None
    } else {
        env_option_payload(words, i + 1)
    }
}

/// The same, from the options of an `env` on.
pub open spec fn env_option_payload(words: Seq<Seq<char>>, i: int) -> Option<Seq<char>>
    decreases words.len() - i, 1int,
{
    if i < 0 || i >= words.len() {
        None
    } else {
        let word = words[i];
        let short = strings::without_prefix(word, "-S"@);
        if word == "-S"@ || word == "--split-string"@ {
            if i + 1 < words.len() {
                Some(words[i + 1])
            } else {
                None
            }
        } else if strings::without_prefix(word, "--split-string="@) is Some {
            strings::without_prefix(word, "--split-string="@)
        } else if short is Some && short->0.len() > 0 {
            short
        } else {
            match option_kind(Wrapper::Env, word) {
                OptionKind::End => env_payload(words, i + 1),
                OptionKind::Flag => env_option_payload(words, i + 1),
                OptionKind::Value => env_option_payload(words, within(words, i + 2)),
                _ => env_payload(words, i),
            }
        }
    }
}

pub open spec fn git_option_takes_value(word: Seq<char>) -> bool {
    word == "-C"@ || word == "-c"@ || word == "--exec-path"@ || word == "--git-dir"@ || word
        == "--work-tree"@ || word == "--namespace"@ || word == "--super-prefix"@ || word
        == "--config-env"@
}

/// The position of git's subcommand among its arguments from `i` on, or the
/// number of arguments.
pub open spec fn git_subcommand_at(args: Seq<Seq<char>>, i: int) -> int
    decreases args.len() - i,
{
    if i < 0 || i >= args.len() {
        args.len() as int
    } else if args[i] == "--"@ {
        i + 1
    } else if !is_option(args[i]) || args[i] == "-"@ {
        i
    } else if git_option_takes_value(args[i]) {
        git_subcommand_at(args, within(args, i + 2))
    } else {
        git_subcommand_at(args, i + 1)
    }
}

proof fn lemma_past_options_bounds(words: Seq<Seq<char>>, wrapper: Wrapper, i: int)
    requires
        0 <= i <= words.len(),
    ensures
        past_options(words, wrapper, i) matches Some(at) ==> i <= at <= words.len(),
    decreases words.len() - i,
{
    if i < words.len() {
        lemma_past_options_bounds(words, wrapper, i + 1);
        lemma_past_options_bounds(words, wrapper, within(words, i + 2));
    }
}

proof fn lemma_find_do_bounds(words: Seq<Seq<char>>, i: int)
    requires
        0 <= i <= words.len(),
    ensures
        i <= find_do(words, i) <= words.len(),
    decreases words.len() - i,
{
    if i < words.len() {
        lemma_find_do_bounds(words, i + 1);
    }
}

proof fn lemma_past_if_modifiers_bounds(words: Seq<Seq<char>>, i: int)
    requires
        0 <= i <= words.len(),
    ensures
        i <= past_if_modifiers(words, i) <= words.len(),
    decreases words.len() - i,
{
    if i < words.len() {
        lemma_past_if_modifiers_bounds(words, i + 1);
    }
}

/// The search for the program never goes back, nor past the end.
pub proof fn lemma_past_wrapper_bounds(words: Seq<Seq<char>>, dialect: ShellDialect, i: int)
    requires
        0 <= i < words.len(),
    ensures
        past_wrapper(words, dialect, i) matches Some(next) ==> i <= next <= words.len(),
{
    let stem = program_stem(words[i]);
    lemma_past_if_modifiers_bounds(words, i + 1);
    lemma_find_do_bounds(words, i);
    match wrapper_named(stem) {
        Some(wrapper) => {
            lemma_past_options_bounds(words, wrapper, i + 1);
        },
        None => {},
    }
}

/// Whether the text is a shell variable name.
pub fn is_shell_name(text: &str) -> (held: bool)
    ensures
        held == is_name(text@),
{
    let chars = chars_of(text);
    if chars.len() == 0 || strings::char_in_class(CharClass::Digit, chars[0]) {
        return false;
    }
    let mut i: usize = 0;
    while i < chars.len()
        invariant
            i <= chars.len(),
            chars@ == text@,
            forall|k: int|
                0 <= k < i ==> (#[trigger] text@[k] == '_' || strings::is_alphanumeric(text@[k])),
        decreases chars.len() - i,
    {
        let c = chars[i];
        if !(c == '_' || ('0' <= c && c <= '9') || ('A' <= c && c <= 'Z') || ('a' <= c && c
            <= 'z')) {
            assert(!(text@[i as int] == '_' || strings::is_alphanumeric(text@[i as int])));
            return false;
        }
        i += 1;
    }
    true
}

/// Whether a word is an assignment to a shell variable.
pub fn shell_assignment(token: &str) -> (held: bool)
    ensures
        held == is_assignment(token@),
{
    match strings::split_first(token, CharClass::Only('=')) {
        Some((name, _)) => is_shell_name(name.as_str()),
        None => false,
    }
}

/// The program that a word names: `git`, `git.exe`, `/usr/bin/git` and
/// `C:\...\git.EXE` all reduce to `git`.
pub fn stem_lower(token: &str) -> (stem: String)
    ensures
        stem@ == program_stem(token@),
{
    let chars = chars_of(token);
    let started = strings::trim_start_of(&chars, CharClass::Only('@'));
    let bare = strings::trim_end_of(&started, CharClass::Separator);
    let from = strings::rfind_class_of(&bare, CharClass::Separator);
    let leaf = strings::cut(&bare, from, bare.len());
    let dot = strings::rfind_class_of(&leaf, CharClass::Only('.'));
    let stem = if dot > 0 {
        cut_string(&leaf, 0, dot - 1)
    } else {
        cut_string(&leaf, 0, leaf.len())
    };
    assert(leaf@.subrange(0, leaf@.len() as int) =~= leaf@);
    strings::to_lower(stem.as_str())
}

/// Whether a word starts with a dash.
pub fn is_dashed(word: &str) -> (held: bool)
    ensures
        held == is_option(word@),
{
    let chars = chars_of(word);
    chars.len() > 0 && chars[0] == '-'
}

fn find_wrapper(stem: &str) -> (wrapper: Option<Wrapper>)
    ensures
        wrapper == wrapper_named(stem@),
{
    if same_text(stem, "env") {
        Some(Wrapper::Env)
    } else if same_text(stem, "command") {
        Some(Wrapper::Command)
    } else if same_text(stem, "sudo") {
        Some(Wrapper::Sudo)
    } else if same_text(stem, "exec") {
        Some(Wrapper::Exec)
    } else if same_text(stem, "time") {
        Some(Wrapper::Time)
    } else if same_text(stem, "timeout") {
        Some(Wrapper::Timeout)
    } else if same_text(stem, "stdbuf") {
        Some(Wrapper::Stdbuf)
    } else if same_text(stem, "setsid") {
        Some(Wrapper::Setsid)
    } else if same_text(stem, "doas") {
        Some(Wrapper::Doas)
    } else if same_text(stem, "xargs") {
        Some(Wrapper::Xargs)
    } else {
        None
    }
}

fn has_value(wrapper: Wrapper, word: &str) -> (held: bool)
    ensures
        held == takes_value(wrapper, word@),
{
    match wrapper {
        Wrapper::Env => same_text(word, "-u") || same_text(word, "--unset") || same_text(word, "-C")
            || same_text(word, "--chdir"),
        Wrapper::Sudo => same_text(word, "-u") || same_text(word, "--user") || same_text(word, "-g")
            || same_text(word, "--group") || same_text(word, "-h") || same_text(word, "--host")
            || same_text(word, "-p") || same_text(word, "--prompt") || same_text(word, "-C")
            || same_text(word, "--close-from") || same_text(word, "-R") || same_text(
            word,
            "--chroot",
        ) || same_text(word, "-D") || same_text(word, "--chdir"),
        Wrapper::Exec => same_text(word, "-a") || same_text(word, "--argv0"),
        Wrapper::Time => same_text(word, "-f") || same_text(word, "--format") || same_text(
            word,
            "-o",
        ) || same_text(word, "--output"),
        Wrapper::Timeout => same_text(word, "-k") || same_text(word, "--kill-after") || same_text(
            word,
            "-s",
        ) || same_text(word, "--signal"),
        Wrapper::Stdbuf => same_text(word, "-i") || same_text(word, "-o") || same_text(word, "-e")
            || same_text(word, "--input") || same_text(word, "--output") || same_text(
            word,
            "--error",
        ),
        Wrapper::Doas => same_text(word, "-a") || same_text(word, "-C") || same_text(word, "-u"),
        Wrapper::Xargs => same_text(word, "-a") || same_text(word, "--arg-file") || same_text(
            word,
            "-d",
        ) || same_text(word, "--delimiter") || same_text(word, "-E") || same_text(word, "-I")
            || same_text(word, "-L") || same_text(word, "-n") || same_text(word, "-P")
            || same_text(word, "-s"),
        Wrapper::Command | Wrapper::Setsid => false,
    }
}

fn is_flag_by_name(wrapper: Wrapper, word: &str) -> (held: bool)
    ensures
        held == is_known_flag(wrapper, word@),
{
    match wrapper {
        Wrapper::Exec => same_text(word, "-c") || same_text(word, "-l") || same_text(word, "-cl")
            || same_text(word, "-lc"),
        Wrapper::Time => same_text(word, "-p") || same_text(word, "-a") || same_text(
            word,
            "--append",
        ) || same_text(word, "-v") || same_text(word, "--verbose") || same_text(word, "-q")
            || same_text(word, "--quiet") || starts_with(word, "--format=") || starts_with(
            word,
            "--output=",
        ),
        Wrapper::Timeout => same_text(word, "--preserve-status") || same_text(word, "--foreground")
            || same_text(word, "-v") || same_text(word, "--verbose") || starts_with(
            word,
            "--kill-after=",
        ) || starts_with(word, "--signal=") || starts_with(word, "-k") || starts_with(word, "-s"),
        Wrapper::Stdbuf => starts_with(word, "-i") || starts_with(word, "-o") || starts_with(
            word,
            "-e",
        ) || starts_with(word, "--input=") || starts_with(word, "--output=") || starts_with(
            word,
            "--error=",
        ),
        Wrapper::Setsid => same_text(word, "-c") || same_text(word, "--ctty") || same_text(
            word,
            "-f",
        ) || same_text(word, "--fork") || same_text(word, "-w") || same_text(word, "--wait"),
        Wrapper::Doas => same_text(word, "-L") || same_text(word, "-n") || same_text(word, "-s"),
        Wrapper::Env | Wrapper::Command | Wrapper::Sudo | Wrapper::Xargs => false,
    }
}

/// What a word among a wrapper's options is.
pub fn classify_option(wrapper: Wrapper, word: &str) -> (kind: OptionKind)
    ensures
        kind == option_kind(wrapper, word@),
{
    let strict = match wrapper {
        Wrapper::Env | Wrapper::Command | Wrapper::Sudo | Wrapper::Xargs => false,
        _ => true,
    };
    let help = match wrapper {
        Wrapper::Time | Wrapper::Timeout | Wrapper::Stdbuf | Wrapper::Setsid => true,
        _ => false,
    };
    if same_text(word, "--") {
        OptionKind::End
    } else if wrapper == Wrapper::Env && shell_assignment(word) {
        OptionKind::Flag
    } else if wrapper == Wrapper::Command && same_text(word, "-") {
        OptionKind::Operand
    } else if wrapper == Wrapper::Command && (same_text(word, "-v") || same_text(word, "-V")) {
        OptionKind::Refuse
    } else if help && (same_text(word, "--help") || same_text(word, "--version")) {
        OptionKind::Refuse
    } else if has_value(wrapper, word) {
        OptionKind::Value
    } else if is_flag_by_name(wrapper, word) {
        OptionKind::Flag
    } else if is_dashed(word) {
        if strict {
            OptionKind::Refuse
        } else {
            OptionKind::Flag
        }
    } else {
        OptionKind::Operand
    }
}

/// `i + by`, or `len` where that lies beyond.
fn ahead(i: usize, by: usize, len: usize) -> (next: usize)
    requires
        i <= len,
    ensures
        next == if i + by <= len {
            i + by
        } else {
            len as int
        },
{
    if by <= len - i {
        i + by
    } else {
        len
    }
}

fn skip_options(tokens: &[String], wrapper: Wrapper, from: usize) -> (at: Option<usize>)
    requires
        from <= tokens.len(),
    ensures
        match at {
            Some(at) => past_options(strings::texts(tokens@), wrapper, from as int) == Some(
                at as int,
            ) && from <= at <= tokens.len(),
            None => past_options(strings::texts(tokens@), wrapper, from as int) is None,
        },
{
    let ghost words = strings::texts(tokens@);
    let mut i: usize = from;
    while i < tokens.len()
        invariant
            from <= i <= tokens.len(),
            words == strings::texts(tokens@),
            past_options(words, wrapper, i as int) == past_options(words, wrapper, from as int),
        decreases tokens.len() - i,
    {
        assert(words[i as int] == tokens@[i as int]@);
        match classify_option(wrapper, tokens[i].as_str()) {
            OptionKind::End => {
                return Some(i + 1);
            },
            OptionKind::Flag => {
                i += 1;
            },
            OptionKind::Value => {
                i = ahead(i, 2, tokens.len());
            },
            OptionKind::Refuse => {
                return None;
            },
            OptionKind::Operand => {
                return Some(i);
            },
        }
    }
    Some(i)
}

/// Skips a `cmd` condition, so that the guarded command becomes the one that is
/// looked at: `[/i] [not] (exist|defined|errorlevel|cmdextversion) X`, a
/// comparison of three words, or a comparison fused into one.
pub fn skip_cmd_if_condition(tokens: &[String], index: usize) -> (at: usize)
    requires
        index <= tokens.len(),
    ensures
        at == past_cmd_condition(strings::texts(tokens@), index as int),
        index <= at <= tokens.len(),
{
    let ghost words = strings::texts(tokens@);
    let mut i: usize = index;
    while i < tokens.len() && (same_text_ignoring_case(tokens[i].as_str(), "/i")
        || same_text_ignoring_case(tokens[i].as_str(), "not"))
        invariant
            index <= i <= tokens.len(),
            words == strings::texts(tokens@),
            past_if_modifiers(words, i as int) == past_if_modifiers(words, index as int),
        decreases tokens.len() - i,
    {
        assert(words[i as int] == tokens@[i as int]@);
        i += 1;
    }
    if i >= tokens.len() {
        return i;
    }
    assert(words[i as int] == tokens@[i as int]@);
    let word = tokens[i].as_str();
    if same_text_ignoring_case(word, "exist") || same_text_ignoring_case(word, "defined")
        || same_text_ignoring_case(word, "errorlevel") || same_text_ignoring_case(
        word,
        "cmdextversion",
    ) {
        return ahead(i, 2, tokens.len());
    }
    if i + 1 < tokens.len() {
        assert(words[i + 1] == tokens@[i + 1]@);
        let operator = tokens[i + 1].as_str();
        if same_text_ignoring_case(operator, "==") || same_text_ignoring_case(operator, "equ")
            || same_text_ignoring_case(operator, "neq") || same_text_ignoring_case(operator, "lss")
            || same_text_ignoring_case(operator, "leq") || same_text_ignoring_case(operator, "gtr")
            || same_text_ignoring_case(operator, "geq") {
            return ahead(i, 3, tokens.len());
        }
    }
    if contains(word, "==") {
        i + 1
    } else {
        i
    }
}

fn find_do_from(tokens: &[String], from: usize) -> (at: usize)
    requires
        from <= tokens.len(),
    ensures
        at == find_do(strings::texts(tokens@), from as int),
        from <= at <= tokens.len(),
{
    let ghost words = strings::texts(tokens@);
    let mut i: usize = from;
    while i < tokens.len() && !same_text_ignoring_case(tokens[i].as_str(), "do")
        invariant
            from <= i <= tokens.len(),
            words == strings::texts(tokens@),
            find_do(words, i as int) == find_do(words, from as int),
        decreases tokens.len() - i,
    {
        assert(words[i as int] == tokens@[i as int]@);
        i += 1;
    }
    if i < tokens.len() {
        assert(words[i as int] == tokens@[i as int]@);
    }
    i
}

fn skip_wrapper(tokens: &[String], dialect: ShellDialect, i: usize) -> (next: Option<usize>)
    requires
        i < tokens.len(),
    ensures
        match next {
            Some(next) => past_wrapper(strings::texts(tokens@), dialect, i as int) == Some(
                next as int,
            ) && i <= next <= tokens.len(),
            None => past_wrapper(strings::texts(tokens@), dialect, i as int) is None,
        },
{
    let ghost words = strings::texts(tokens@);
    assert(words[i as int] == tokens@[i as int]@);
    let name = stem_lower(tokens[i].as_str());
    let stem = name.as_str();
    if same_text(stem, "then") || same_text(stem, "else") || same_text(stem, "elif") || same_text(
        stem,
        "elseif",
    ) || same_text(stem, "do") || same_text(stem, "!") || same_text(stem, "while") || same_text(
        stem,
        "until",
    ) || same_text(stem, "nohup") || same_text(stem, "chronic") || (same_text(stem, "call")
        && dialect == ShellDialect::Cmd) {
        return Some(i + 1);
    }
    if same_text(stem, "if") {
        return Some(
            if dialect == ShellDialect::Cmd {
                skip_cmd_if_condition(tokens, i + 1)
            } else {
                i + 1
            },
        );
    }
    if same_text(stem, "for") || same_text(stem, "select") {
        let at = find_do_from(tokens, i);
        return if at < tokens.len() {
            Some(at + 1)
        } else {
            None
        };
    }
    if same_text(stem, "nice") {
        if i + 1 < tokens.len() {
            assert(words[i + 1] == tokens@[i + 1]@);
            if same_text(tokens[i + 1].as_str(), "-n") {
                return Some(ahead(i, 3, tokens.len()));
            }
            if is_dashed(tokens[i + 1].as_str()) {
                return Some(i + 2);
            }
        }
        return Some(i + 1);
    }
    match find_wrapper(stem) {
        None => Some(i),
        Some(wrapper) => match skip_options(tokens, wrapper, i + 1) {
            None => None,
            Some(at) => if wrapper == Wrapper::Timeout {
                Some(ahead(at, 1, tokens.len()))
            } else {
                Some(at)
            },
        },
    }
}

fn skip_assignments(tokens: &[String]) -> (at: usize)
    ensures
        at == past_assignments(strings::texts(tokens@), 0),
        at <= tokens.len(),
{
    let ghost words = strings::texts(tokens@);
    let mut i: usize = 0;
    while i < tokens.len() && shell_assignment(tokens[i].as_str())
        invariant
            i <= tokens.len(),
            words == strings::texts(tokens@),
            past_assignments(words, i as int) == past_assignments(words, 0),
        decreases tokens.len() - i,
    {
        assert(words[i as int] == tokens@[i as int]@);
        i += 1;
    }
    if i < tokens.len() {
        assert(words[i as int] == tokens@[i as int]@);
    }
    i
}

/// The position of the program that a command runs, behind assignments,
/// keywords and wrappers.
pub fn command_program_index(tokens: &[String], dialect: ShellDialect) -> (index: Option<usize>)
    ensures
        match index {
            Some(index) => program_index(strings::texts(tokens@), dialect) == Some(index as int)
                && index < tokens.len(),
            None => program_index(strings::texts(tokens@), dialect) is None,
        },
{
    let ghost words = strings::texts(tokens@);
    let mut i: usize = skip_assignments(tokens);
    while i < tokens.len()
        invariant
            i <= tokens.len(),
            words == strings::texts(tokens@),
            program_from(words, dialect, i as int) == program_index(words, dialect),
        decreases tokens.len() - i,
    {
        match skip_wrapper(tokens, dialect, i) {
            None => {
                return None;
            },
            Some(next) => {
                if next == i {
                    return Some(i);
                }
                i = next;
            },
        }
    }
    None
}

/// The text that `env -S` is asked to split into a command. Only an `env` in
/// command position is followed; an `env -S` later in a command is data.
pub fn env_split_string_payload(tokens: &[String]) -> (payload: Option<String>)
    ensures
        ({
            let words = strings::texts(tokens@);
            match payload {
                Some(payload) => env_payload(words, past_assignments(words, 0)) == Some(payload@),
                None => env_payload(words, past_assignments(words, 0)) is None,
            }
        }),
{
    let ghost words = strings::texts(tokens@);
    let mut i: usize = skip_assignments(tokens);
    let ghost wanted = env_payload(words, i as int);
    let mut in_options = false;
    while i < tokens.len()
        invariant
            i <= tokens.len(),
            words == strings::texts(tokens@),
            wanted == env_payload(words, past_assignments(words, 0)),
            wanted == if in_options {
                env_option_payload(words, i as int)
            } else {
                env_payload(words, i as int)
            },
        ensures
            wanted is None,
        decreases tokens.len() - i, in_options as int,
    {
        assert(words[i as int] == tokens@[i as int]@);
        let word = tokens[i].as_str();
        if !in_options {
            if !same_text(stem_lower(word).as_str(), "env") {
                return None;
            }
            in_options = true;
            i += 1;
            continue ;
        }
        if same_text(word, "-S") || same_text(word, "--split-string") {
            return if i + 1 < tokens.len() {
                assert(words[i + 1] == tokens@[i + 1]@);
                Some(tokens[i + 1].clone())
            } else {
                None
            };
        }
        if let Some(payload) = strip_prefix(word, "--split-string=") {
            return Some(payload);
        }
        if let Some(payload) = strip_prefix(word, "-S") {
            if !payload.as_str().is_empty() {
                return Some(payload);
            }
        }
        match classify_option(Wrapper::Env, word) {
            OptionKind::End => {
                in_options = false;
                i += 1;
            },
            OptionKind::Flag => {
                i += 1;
            },
            OptionKind::Value => {
                i = ahead(i, 2, tokens.len());
            },
            _ => {
                in_options = false;
            },
        }
    }
    None
}

/// Whether a global option of git is followed by its value.
pub fn git_global_option_takes_value(token: &str) -> (held: bool)
    ensures
        held == git_option_takes_value(token@),
{
    same_text(token, "-C") || same_text(token, "-c") || same_text(token, "--exec-path")
        || same_text(token, "--git-dir") || same_text(token, "--work-tree") || same_text(
        token,
        "--namespace",
    ) || same_text(token, "--super-prefix") || same_text(token, "--config-env")
}

/// The position and the name of git's subcommand.
pub fn git_subcommand(args: &[String]) -> (found: Option<(usize, String)>)
    ensures
        ({
            let words = strings::texts(args@);
            let at = git_subcommand_at(words, 0);
            match found {
                Some((index, name)) => index == at && index < args.len() && name@ == words[at],
                None => at >= words.len(),
            }
        }),
{
    let ghost words = strings::texts(args@);
    let mut i: usize = 0;
    while i < args.len()
        invariant_except_break
            i <= args.len(),
            words == strings::texts(args@),
            git_subcommand_at(words, i as int) == git_subcommand_at(words, 0),
        ensures
            i <= args.len(),
            i == git_subcommand_at(words, 0),
        decreases args.len() - i,
    {
        assert(words[i as int] == args@[i as int]@);
        let word = args[i].as_str();
        if same_text(word, "--") {
            i += 1;
            break ;
        }
        if !is_dashed(word) || same_text(word, "-") {
            break ;
        }
        if git_global_option_takes_value(word) {
            i = ahead(i, 2, args.len());
        } else {
            i += 1;
        }
    }
    if i < args.len() {
        assert(words[i as int] == args@[i as int]@);
        Some((i, args[i].clone()))
    } else {
        None
    }
}

/// Whether a text may stand in front of a program's name: nothing, or a directory and
/// the slash or backslash behind it.
pub open spec fn is_directory_part(text: Seq<char>) -> bool {
    text.len() == 0 || text.last() == '/' || text.last() == '\\'
}

/// Whether a text has no separator in it.
pub open spec fn has_no_separator(text: Seq<char>) -> bool {
    !text.contains('/') && !text.contains('\\')
}

/// A program is known by its name in lower case, whatever directory stands in front of
/// it and whatever extension behind it.
pub proof fn programs_are_known_by_name(
    directory: Seq<char>,
    name: Seq<char>,
    extension: Seq<char>,
)
    requires
        is_directory_part(directory),
        name.len() > 0,
        name[0] != '@',
        has_no_separator(name),
        has_no_separator(extension),
        !extension.contains('.'),
    ensures
        program_stem(directory + name + seq!['.'] + extension) == strings::lower_text(name),
        !name.contains('.') ==> program_stem(directory + name) == strings::lower_text(name),
{
    let leaf = name + seq!['.'] + extension;
    assert(directory + name + seq!['.'] + extension =~= directory + leaf);
    assert(has_no_separator(leaf)) by {
        assert forall|i: int| 0 <= i < leaf.len() implies leaf[i] != '/' && leaf[i] != '\\' by {
            if i < name.len() {
                assert(name.contains(name[i]));
            } else if i > name.len() {
                assert(extension.contains(extension[i - name.len() - 1]));
            }
        }
    }
    lemma_leaf(directory, leaf);
    let dot = strings::rfind_class(leaf, CharClass::Only('.'), leaf.len() as int);
    assert(leaf.skip(name.len() as int + 1) =~= extension);
    lemma_last_is_at(leaf, CharClass::Only('.'), name.len() as int, leaf.len() as int, extension);
    assert(leaf.take(dot - 1) =~= name);
    lemma_leaf(directory, name);
    if !name.contains('.') {
        lemma_none_found(name, CharClass::Only('.'), name.len() as int);
    }
}

proof fn lemma_none_found(text: Seq<char>, class: CharClass, to: int)
    requires
        0 <= to <= text.len(),
        forall|i: int| 0 <= i < to ==> !strings::in_class(class, #[trigger] text[i]) || !text.contains(
            text[i],
        ),
    ensures
        strings::rfind_class(text, class, to) == 0,
    decreases to,
{
    if to > 0 {
        assert(text.contains(text[to - 1]));
        lemma_none_found(text, class, to - 1);
    }
}

proof fn lemma_last_is_at(text: Seq<char>, class: CharClass, at: int, to: int, behind: Seq<char>)
    requires
        0 <= at < to <= text.len(),
        strings::in_class(class, text[at]),
        text.skip(at + 1) == behind,
        forall|i: int|
            0 <= i < behind.len() ==> !strings::in_class(class, #[trigger] behind[i])
                || !behind.contains(behind[i]),
    ensures
        strings::rfind_class(text, class, to) == at + 1,
    decreases to,
{
    if to - 1 > at {
        assert(text[to - 1] == behind[to - 2 - at]);
        assert(behind.contains(behind[to - 2 - at]));
        lemma_last_is_at(text, class, at, to - 1, behind);
    }
}

proof fn lemma_leaf(directory: Seq<char>, leaf: Seq<char>)
    requires
        is_directory_part(directory),
        leaf.len() > 0,
        leaf[0] != '@',
        has_no_separator(leaf),
    ensures
        ({
            let dot = strings::rfind_class(leaf, CharClass::Only('.'), leaf.len() as int);
            program_stem(directory + leaf) == strings::lower_text(
                if dot > 0 {
                    leaf.take(dot - 1)
                } else {
                    leaf
                },
            )
        }),
{
    let word = directory + leaf;
    let from = strings::skip_class(word, CharClass::Only('@'), 0);
    strings::lemma_skipped(word, CharClass::Only('@'), 0);
    if from >= directory.len() {
        if directory.len() > 0 {
            assert(word[directory.len() - 1] == directory.last());
        }
        assert(word[directory.len() as int] == leaf[0]);
    }
    let bare = strings::trim_start(word, CharClass::Only('@'));
    let kept = directory.skip(from);
    assert(bare =~= kept + leaf);
    assert(leaf.contains(leaf.last()));
    assert(bare.last() == leaf.last());
    assert(strings::trim_end(bare, CharClass::Separator) =~= bare);
    if kept.len() == 0 {
        assert(bare =~= leaf);
        lemma_none_found(leaf, CharClass::Separator, leaf.len() as int);
        assert(bare.skip(0) =~= leaf);
    } else {
        assert(kept.last() == directory.last());
        assert(bare[kept.len() - 1] == kept.last());
        assert(bare.skip(kept.len() as int) =~= leaf);
        lemma_last_is_at(bare, CharClass::Separator, kept.len() - 1, bare.len() as int, leaf);
        assert(bare.skip(
            strings::rfind_class(bare, CharClass::Separator, bare.len() as int),
        ) =~= leaf);
    }
}

} // verus!
