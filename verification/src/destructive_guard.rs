//! Blocking deny-list for destructive commands.
//!
//! The built-in rules block `git clean`, whose flags are easily misread and
//! which deletes ignored files, and PowerShell commands that cannot be read. A
//! repository can add protected path fragments; those are matched against what
//! a command deletes.
//!
//! A direct argv is already split into words, so only the command that it runs
//! is looked at. Shell payloads are split into commands first, and the same
//! rules applied to each.
use vstd::prelude::*;

use crate::braces;
use crate::braces::expand_literal_braces;
use crate::deletion;
use crate::deletion::{
    any_fragment, deletes, deletes_recursively, git_rm_is_harmless, has_recursive_flag,
    path_operands, powershell_encoded_flag,
};
use crate::program;
use crate::program::{
    command_program_index, env_split_string_payload, git_global_option_takes_value,
    git_subcommand, is_shell_name, shell_assignment, stem_lower,
};
use crate::shell_parse;
use crate::shell_parse::{parse_shell_payload, ShellDialect};
use crate::strings;
use crate::strings::{
    chars_of, contains, copy_strings, cut_string, debug_text, join, same_text,
    same_text_ignoring_case, split_first, starts_with, strip_prefix, to_lower, CharClass,
};

verus! {

/// The environment variable that lets a denied command run.
pub const ALLOW_DESTRUCTIVE_ENV: &'static str = "CONTEXTMINK_BRIDGE_ALLOW_DESTRUCTIVE";

/// How deep shells, aliases and `-exec` commands may nest.
pub const MAX_NESTED_SHELL_DEPTH: usize = 16;

pub const GIT_CLEAN_MESSAGE: &'static str = "git clean is blocked by contextmink's built-in destructive-command guard. Its -e flag adds ignore patterns instead of protecting files, and -x/-X delete git-ignored artifacts with no recovery path. Delete explicit paths with `rm -f <path>` instead.";

pub const NESTING_MESSAGE: &'static str = "destructive-command inspection exceeded the nested shell limit";

pub const ENCODED_MESSAGE: &'static str = "encoded PowerShell commands are blocked because their payload cannot be inspected; pass the decoded script with -Command instead";

/// Protected path fragments that a repository configures.
#[derive(Debug, Clone)]
pub struct DestructiveGuardConfig {
    /// Not to be deleted together with what is below them.
    pub recursive_delete_fragments: Vec<String>,
    /// Not to be deleted at all.
    pub delete_fragments: Vec<String>,
}

/// The verdict on an argv.
#[derive(Debug, PartialEq, Eq)]
pub enum DenyDecision {
    Allow,
    /// Denied, but let through by the override: the message is to be shown as a
    /// warning.
    AllowWithOverride { message: String },
    /// Denied: the message is to be shown, and nothing run.
    Deny { message: String },
}

/// The configured fragments, and whether they apply.
pub struct Rules {
    pub recursive: Seq<Seq<char>>,
    pub delete: Seq<Seq<char>>,
    pub active: bool,
}

impl DestructiveGuardConfig {
    pub open spec fn rules(&self, active: bool) -> Rules {
        Rules {
            recursive: strings::texts(self.recursive_delete_fragments@),
            delete: strings::texts(self.delete_fragments@),
            active,
        }
    }
}

pub open spec fn recursive_message(fragment: Seq<char>) -> Seq<char> {
    "recursive deletion references configured protected path fragment "@ + strings::debug_quoted(
        fragment,
    )
        + "; remove or change the fragment in .contextmink.toml only for deliberate human maintenance"@
}

pub open spec fn delete_message(fragment: Seq<char>) -> Seq<char> {
    "deletion references configured protected path fragment "@ + strings::debug_quoted(fragment)
        + "; remove or change the fragment in .contextmink.toml only for deliberate human maintenance"@
}

pub open spec fn alias_message(alias: Seq<char>, message: Seq<char>) -> Seq<char> {
    "invoked inline Git alias "@ + strings::debug_quoted(alias)
        + " resolves to a blocked command: "@ + message
}

/// How many levels of nesting are left at a depth.
pub open spec fn room(depth: nat) -> nat {
    if depth > MAX_NESTED_SHELL_DEPTH {
        0
    } else {
        (MAX_NESTED_SHELL_DEPTH + 1 - depth) as nat
    }
}

/// The next depth; past the limit all depths are alike.
pub open spec fn deeper(depth: nat) -> nat {
    if depth > MAX_NESTED_SHELL_DEPTH {
        depth
    } else {
        depth + 1
    }
}

/// What the targets of a deletion run into.
pub open spec fn protected_target(
    targets: Seq<Seq<char>>,
    recursive: bool,
    rules: Rules,
) -> Option<Seq<char>> {
    let tree = deletion::first_fragment(targets, rules.recursive, 0);
    let file = deletion::first_fragment(targets, rules.delete, 0);
    if recursive && tree is Some {
        Some(recursive_message(tree->0))
    } else if file is Some {
        Some(delete_message(file->0))
    } else {
        None
    }
}

pub open spec fn is_posix_shell(stem: Seq<char>) -> bool {
    stem == "bash"@ || stem == "sh"@ || stem == "dash"@ || stem == "zsh"@ || stem == "ksh"@
}

pub open spec fn is_powershell(stem: Seq<char>) -> bool {
    stem == "powershell"@ || stem == "pwsh"@
}

pub open spec fn is_shell(stem: Seq<char>) -> bool {
    is_posix_shell(stem) || is_powershell(stem) || stem == "cmd"@
}

pub open spec fn dialect_of(stem: Seq<char>) -> ShellDialect {
    if is_powershell(stem) {
        ShellDialect::Powershell
    } else if stem == "cmd"@ {
        ShellDialect::Cmd
    } else {
        ShellDialect::Posix
    }
}

/// Whether the word tells a shell that its script follows.
pub open spec fn is_script_flag(stem: Seq<char>, word: Seq<char>) -> bool {
    if is_posix_shell(stem) {
        &&& program::is_option(word)
        &&& !"--"@.is_prefix_of(word)
        &&& exists|i: int| 1 <= i < word.len() && #[trigger] word[i] == 'c'
    } else if is_powershell(stem) {
        match strings::without_prefix(word, "-"@) {
            Some(name) => name.len() > 0 && strings::lower_text(name).is_prefix_of("command"@),
            None => false,
        }
    } else {
        strings::same_ignoring_case(word, "/c"@)
    }
}

/// The script that a shell is given among its arguments from `i` on.
pub open spec fn script_from(stem: Seq<char>, args: Seq<Seq<char>>, i: int) -> Option<Seq<char>>
    decreases args.len() - i,
{
    if i < 0 || i >= args.len() {
        None
    } else if is_script_flag(stem, args[i]) && (!is_posix_shell(stem) || i + 1 < args.len()) {
        Some(
            if is_posix_shell(stem) {
                args[i + 1]
            } else {
                strings::join_texts(args.skip(i + 1), " "@)
            },
        )
    } else {
        script_from(stem, args, i + 1)
    }
}

/// The variable that a word refers to as `$name` or `${name}`.
pub open spec fn variable_named(word: Seq<char>) -> Option<Seq<char>> {
    let name = if "${"@.is_prefix_of(word) && word.len() > 2 && word.last() == '}' {
        Some(word.subrange(2, word.len() - 1))
    } else {
        strings::without_prefix(word, "$"@)
    };
    match name {
        Some(name) => if program::is_name(name) {
            Some(name)
        } else {
            None
        },
        None => None,
    }
}

/// Whether a value is taken literally by the shell.
pub open spec fn is_literal(value: Seq<char>) -> bool {
    forall|i: int| 0 <= i < value.len() ==> !is_active_char(#[trigger] value[i])
}

pub open spec fn is_active_char(c: char) -> bool {
    c == '$' || c == '`' || c == '(' || c == ')' || c == ';' || c == '&' || c == '|' || c == '<'
        || c == '>'
}

/// The words of a command with known variables replaced.
pub open spec fn with_variables(words: Seq<Seq<char>>, values: Map<Seq<char>, Seq<char>>) -> Seq<
    Seq<char>,
> {
    words.map_values(|word: Seq<char>| with_variable(word, values))
}

pub open spec fn with_variable(word: Seq<char>, values: Map<Seq<char>, Seq<char>>) -> Seq<char> {
    match variable_named(word) {
        Some(name) => if values.contains_key(name) {
            values[name]
        } else {
            word
        },
        None => word,
    }
}

pub open spec fn all_assignments(words: Seq<Seq<char>>) -> bool {
    forall|i: int| 0 <= i < words.len() ==> program::is_assignment(#[trigger] words[i])
}

/// The variables after the assignments from `i` on: a literal value becomes
/// known, any other makes the variable unknown.
pub open spec fn assigned(
    values: Map<Seq<char>, Seq<char>>,
    words: Seq<Seq<char>>,
    i: int,
) -> Map<Seq<char>, Seq<char>>
    decreases words.len() - i,
{
    if i < 0 || i >= words.len() {
        values
    } else {
        let (name, value) = strings::split_at_first(words[i], CharClass::Only('='))->0;
        assigned(
            if is_literal(value) {
                values.insert(name, value)
            } else {
                values.remove(name)
            },
            words,
            i + 1,
        )
    }
}

/// The first `;` or `+` from `i` on, or the number of words.
pub open spec fn exec_end(args: Seq<Seq<char>>, i: int) -> int
    decreases args.len() - i,
{
    if i < 0 || i >= args.len() {
        args.len() as int
    } else if args[i] == ";"@ || args[i] == "+"@ {
        i
    } else {
        exec_end(args, i + 1)
    }
}

pub open spec fn is_exec(word: Seq<char>) -> bool {
    word == "-exec"@ || word == "-execdir"@
}

/// Whether the command behind `-exec` deletes.
pub open spec fn exec_deletes(words: Seq<Seq<char>>, dialect: ShellDialect) -> bool {
    match program::program_index(words, dialect) {
        Some(i) => deletion::is_deletion(program::program_stem(words[i])),
        None => false,
    }
}

/// What a deletion by `find` runs into: any of its words counts.
pub open spec fn find_target(args: Seq<Seq<char>>, rules: Rules) -> Option<Seq<char>> {
    if rules.active {
        protected_target(args, true, rules)
    } else {
        None
    }
}

/// What the alias setting `key=value` makes of the subcommand.
pub open spec fn alias_payload(setting: Seq<char>, subcommand: Seq<char>) -> Option<Seq<char>> {
    match strings::split_at_first(setting, CharClass::Only('=')) {
        Some((key, value)) => if key.len() >= 6 && strings::same_ignoring_case(
            key.take(6),
            "alias."@,
        ) && strings::same_ignoring_case(key.skip(6), subcommand) {
            Some(
                match strings::without_prefix(value, "!"@) {
                    Some(script) => script,
                    None => "git "@ + value,
                },
            )
        } else {
            None
        },
        None => None,
    }
}

/// The message with which a command is denied.
pub open spec fn denied_command(
    words: Seq<Seq<char>>,
    rules: Rules,
    depth: nat,
    dialect: ShellDialect,
) -> Option<Seq<char>>
    decreases room(depth), 0nat, 3nat, 0nat,
{
    if depth > MAX_NESTED_SHELL_DEPTH {
        Some(NESTING_MESSAGE@)
    } else {
        let split = program::env_payload(words, program::past_assignments(words, 0));
        let by_split = match split {
            Some(payload) => denied_payload(payload, rules, depth + 1, ShellDialect::Posix),
            None => None,
        };
        if by_split is Some {
            by_split
        } else {
            match program::program_index(words, dialect) {
                None => None,
                Some(at) => denied_program(
                    program::program_stem(words[at]),
                    words.skip(at + 1),
                    rules,
                    depth,
                    dialect,
                ),
            }
        }
    }
}

/// The message with which a program with these arguments is denied.
pub open spec fn denied_program(
    stem: Seq<char>,
    args: Seq<Seq<char>>,
    rules: Rules,
    depth: nat,
    dialect: ShellDialect,
) -> Option<Seq<char>>
    decreases room(depth), 0nat, 2nat, 0nat,
    when depth <= MAX_NESTED_SHELL_DEPTH
{
    let git = if stem == "git"@ {
        denied_git(args, rules, depth)
    } else {
        None
    };
    let script = script_from(stem, args, 0);
    let by_script = if is_shell(stem) && script is Some {
        denied_payload(script->0, rules, depth + 1, dialect_of(stem))
    } else {
        None
    };
    let by_eval = if stem == "eval"@ && args.len() > 0 {
        denied_payload(strings::join_texts(args, " "@), rules, depth + 1, ShellDialect::Posix)
    } else {
        None
    };
    let by_find = if stem == "find"@ {
        denied_find(args, rules, depth, dialect)
    } else {
        None
    };
    if git is Some {
        git
    } else if is_powershell(stem) && exists|i: int|
        0 <= i < args.len() && deletion::is_encoded_flag(#[trigger] args[i]) {
        Some(ENCODED_MESSAGE@)
    } else if by_script is Some {
        by_script
    } else if by_eval is Some {
        by_eval
    } else if by_find is Some {
        by_find
    } else if deletion::is_deletion(stem) && rules.active {
        protected_target(
            deletion::targets(stem, args),
            deletion::is_recursive(stem, args),
            rules,
        )
    } else {
        None
    }
}

/// The message with which a git command is denied.
pub open spec fn denied_git(args: Seq<Seq<char>>, rules: Rules, depth: nat) -> Option<Seq<char>>
    decreases room(depth), 0nat, 1nat, args.len() + 1,
    when depth <= MAX_NESTED_SHELL_DEPTH
{
    let at = program::git_subcommand_at(args, 0);
    if at >= args.len() {
        None
    } else {
        let by_alias = denied_alias(args, rules, depth, 0);
        let rest = args.skip(at + 1);
        if by_alias is Some {
            by_alias
        } else if strings::same_ignoring_case(args[at], "clean"@) {
            Some(GIT_CLEAN_MESSAGE@)
        } else if rules.active && strings::same_ignoring_case(args[at], "rm"@)
            && !deletion::git_rm_keeps_files(rest, 0, false) {
            protected_target(
                deletion::targets("git-rm"@, rest),
                deletion::any_sets_flag(rest, deletion::recursive_letters(), "--recursive"@),
                rules,
            )
        } else {
            None
        }
    }
}

/// The message with which an alias given on the command line, from `i` on, is
/// denied where it is the one invoked.
pub open spec fn denied_alias(
    args: Seq<Seq<char>>,
    rules: Rules,
    depth: nat,
    i: int,
) -> Option<Seq<char>>
    decreases room(depth), 0nat, 1nat, args.len() - i,
    when depth <= MAX_NESTED_SHELL_DEPTH
{
    let at = program::git_subcommand_at(args, 0);
    if i < 0 || i >= at || at >= args.len() {
        None
    } else if args[i] != "-c"@ {
        denied_alias(
            args,
            rules,
            depth,
            program::within(
                args,
                if program::git_option_takes_value(args[i]) {
                    i + 2
                } else {
                    i + 1
                },
            ),
        )
    } else if i + 1 >= args.len() {
        None
    } else {
        let payload = alias_payload(args[i + 1], args[at]);
        let by_alias = match payload {
            Some(payload) => denied_payload(payload, rules, depth + 1, ShellDialect::Posix),
            None => None,
        };
        match by_alias {
            Some(message) => Some(alias_message(args[at], message)),
            None => denied_alias(args, rules, depth, program::within(args, i + 2)),
        }
    }
}

/// The message with which a `find` command is denied.
pub open spec fn denied_find(
    args: Seq<Seq<char>>,
    rules: Rules,
    depth: nat,
    dialect: ShellDialect,
) -> Option<Seq<char>>
    decreases room(depth), 0nat, 1nat, args.len() + 1,
    when depth <= MAX_NESTED_SHELL_DEPTH
{
    if args.contains("-delete"@) && find_target(args, rules) is Some {
        find_target(args, rules)
    } else {
        denied_exec(args, rules, depth, dialect, 0)
    }
}

/// The message with which an `-exec` from `i` on is denied.
pub open spec fn denied_exec(
    args: Seq<Seq<char>>,
    rules: Rules,
    depth: nat,
    dialect: ShellDialect,
    i: int,
) -> Option<Seq<char>>
    decreases room(depth), 0nat, 1nat, args.len() - i,
    when depth <= MAX_NESTED_SHELL_DEPTH
{
    if i < 0 || i >= args.len() {
        None
    } else if !is_exec(args[i]) {
        denied_exec(args, rules, depth, dialect, i + 1)
    } else {
        proof {
            lemma_exec_end_bounds(args, i + 1);
        }
        let end = exec_end(args, i + 1);
        let command = args.subrange(i + 1, end);
        let by_command = denied_command(command, rules, depth + 1, dialect);
        if by_command is Some {
            by_command
        } else if exec_deletes(command, dialect) && find_target(args, rules) is Some {
            find_target(args, rules)
        } else {
            denied_exec(args, rules, depth, dialect, program::within(args, end + 1))
        }
    }
}

/// The message with which a shell payload is denied.
pub open spec fn denied_payload(
    payload: Seq<char>,
    rules: Rules,
    depth: nat,
    dialect: ShellDialect,
) -> Option<Seq<char>>
    decreases room(depth), payload.len(), 9nat, 0nat,
{
    let by_commands = denied_commands(
        shell_parse::parsed(payload, dialect).commands,
        rules,
        depth,
        dialect,
        Map::empty(),
        0,
    );
    if by_commands is Some {
        by_commands
    } else {
        denied_substitutions(payload, rules, depth, dialect, 0)
    }
}

/// The message with which one of the commands from `i` on is denied, the given
/// variables being known.
pub open spec fn denied_commands(
    commands: Seq<Seq<Seq<char>>>,
    rules: Rules,
    depth: nat,
    dialect: ShellDialect,
    values: Map<Seq<char>, Seq<char>>,
    i: int,
) -> Option<Seq<char>>
    decreases room(depth), 0nat, 5nat, commands.len() - i,
{
    if i < 0 || i >= commands.len() {
        None
    } else {
        let posix = dialect == ShellDialect::Posix;
        let words = if posix {
            with_variables(commands[i], values)
        } else {
            commands[i]
        };
        match braces::command_variants(words) {
            // Too many variants: the command is looked at as it stands.
            None => {
                let message = denied_command(words, rules, depth, dialect);
                if message is Some {
                    message
                } else {
                    denied_commands(commands, rules, depth, dialect, values, i + 1)
                }
            },
            Some(variants) => {
                let message = denied_variants(variants, rules, depth, dialect, 0);
                if message is Some {
                    message
                } else {
                    denied_commands(
                        commands,
                        rules,
                        depth,
                        dialect,
                        if posix && all_assignments(words) {
                            assigned(values, words, 0)
                        } else {
                            values
                        },
                        i + 1,
                    )
                }
            },
        }
    }
}

/// The message with which one of the variants from `i` on is denied.
pub open spec fn denied_variants(
    variants: Seq<Seq<Seq<char>>>,
    rules: Rules,
    depth: nat,
    dialect: ShellDialect,
    i: int,
) -> Option<Seq<char>>
    decreases room(depth), 0nat, 4nat, variants.len() - i,
{
    if i < 0 || i >= variants.len() {
        None
    } else {
        let message = denied_command(variants[i], rules, depth, dialect);
        if message is Some {
            message
        } else {
            denied_variants(variants, rules, depth, dialect, i + 1)
        }
    }
}

/// The message with which one of the payload's command substitutions, from `i`
/// on, is denied.
pub open spec fn denied_substitutions(
    payload: Seq<char>,
    rules: Rules,
    depth: nat,
    dialect: ShellDialect,
    i: int,
) -> Option<Seq<char>>
    decreases
            room(depth),
            payload.len(),
            7nat,
            shell_parse::parsed(payload, dialect).substitutions.len() - i,
{
    let substitutions = shell_parse::parsed(payload, dialect).substitutions;
    if i < 0 || i >= substitutions.len() {
        None
    } else {
        proof {
            shell_parse::lemma_substitutions_are_shorter(payload, dialect);
        }
        let message = denied_payload(substitutions[i], rules, deeper(depth), dialect);
        if message is Some {
            message
        } else {
            denied_substitutions(payload, rules, depth, dialect, i + 1)
        }
    }
}

pub proof fn lemma_exec_end_bounds(args: Seq<Seq<char>>, i: int)
    requires
        0 <= i <= args.len(),
    ensures
        i <= exec_end(args, i) <= args.len(),
    decreases args.len() - i,
{
    if i < args.len() {
        lemma_exec_end_bounds(args, i + 1);
    }
}

/// What was learnt of variables, in order: a literal value, or that the value is
/// not known.
type VariableLog = Vec<(String, Option<String>)>;

spec fn known(log: Seq<(String, Option<String>)>) -> Map<Seq<char>, Seq<char>>
    decreases log.len(),
{
    if log.len() == 0 {
        Map::empty()
    } else {
        let before = known(log.drop_last());
        match log.last().1 {
            Some(value) => before.insert(log.last().0@, value@),
            None => before.remove(log.last().0@),
        }
    }
}

/// The value that a variable is known to have.
fn look_up(log: &VariableLog, name: &str) -> (value: Option<String>)
    ensures
        match value {
            Some(value) => known(log@).contains_key(name@) && known(log@)[name@] == value@,
            None => !known(log@).contains_key(name@),
        },
{
    let mut i: usize = log.len();
    assert(log@.take(i as int) =~= log@);
    while i > 0
        invariant
            i <= log.len(),
            known(log@).contains_key(name@) == known(log@.take(i as int)).contains_key(name@),
            known(log@).contains_key(name@) ==> known(log@)[name@] == known(
                log@.take(i as int),
            )[name@],
        decreases i,
    {
        i -= 1;
        let ghost upto = log@.take(i as int + 1);
        assert(upto.drop_last() =~= log@.take(i as int));
        assert(upto.last() == log@[i as int]);
        if same_text(log[i].0.as_str(), name) {
            return log[i].1.clone();
        }
    }
    assert(log@.take(0) =~= Seq::empty());
    None
}

/// The name in a `$name` or `${name}` word.
pub fn posix_variable_reference(token: &str) -> (name: Option<String>)
    ensures
        match name {
            Some(name) => variable_named(token@) == Some(name@),
            None => variable_named(token@) is None,
        },
{
    let chars = chars_of(token);
    proof {
        reveal_strlit("${");
    }
    let name = if starts_with(token, "${") && chars.len() > 2 && chars[chars.len() - 1] == '}' {
        Some(cut_string(&chars, 2, chars.len() - 1))
    } else {
        strip_prefix(token, "$")
    };
    match name {
        Some(name) => if is_shell_name(name.as_str()) {
            Some(name)
        } else {
            None
        },
        None => None,
    }
}

/// Whether the shell takes a value literally.
pub fn literal_shell_value(value: &str) -> (held: bool)
    ensures
        held == is_literal(value@),
{
    let chars = chars_of(value);
    let mut i: usize = 0;
    while i < chars.len()
        invariant
            i <= chars.len(),
            chars@ == value@,
            forall|k: int| 0 <= k < i ==> !is_active_char(#[trigger] value@[k]),
        decreases chars.len() - i,
    {
        let c = chars[i];
        if c == '$' || c == '`' || c == '(' || c == ')' || c == ';' || c == '&' || c == '|' || c
            == '<' || c == '>' {
            assert(is_active_char(value@[i as int]));
            return false;
        }
        i += 1;
    }
    true
}

/// The dialect that a shell reads its scripts in.
pub fn shell_dialect(stem: &str) -> (dialect: ShellDialect)
    ensures
        dialect == dialect_of(stem@),
{
    if same_text(stem, "powershell") || same_text(stem, "pwsh") {
        ShellDialect::Powershell
    } else if same_text(stem, "cmd") {
        ShellDialect::Cmd
    } else {
        ShellDialect::Posix
    }
}

fn runs_posix_shell(stem: &str) -> (held: bool)
    ensures
        held == is_posix_shell(stem@),
{
    same_text(stem, "bash") || same_text(stem, "sh") || same_text(stem, "dash") || same_text(
        stem,
        "zsh",
    ) || same_text(stem, "ksh")
}

fn runs_powershell(stem: &str) -> (held: bool)
    ensures
        held == is_powershell(stem@),
{
    same_text(stem, "powershell") || same_text(stem, "pwsh")
}

fn announces_script(stem: &str, word: &str) -> (held: bool)
    ensures
        held == is_script_flag(stem@, word@),
{
    if runs_posix_shell(stem) {
        if !program::is_dashed(word) || starts_with(word, "--") {
            return false;
        }
        let chars = chars_of(word);
        let mut i: usize = 1;
        while i < chars.len()
            invariant
                1 <= i,
                chars@ == word@,
                is_posix_shell(stem@),
                program::is_option(word@),
                !"--"@.is_prefix_of(word@),
                forall|k: int| 1 <= k < i ==> #[trigger] word@[k] != 'c',
            decreases chars.len() - i,
        {
            if chars[i] == 'c' {
                assert(word@[i as int] == 'c');
                return true;
            }
            i += 1;
        }
        false
    } else if runs_powershell(stem) {
        match strip_prefix(word, "-") {
            Some(name) => !name.as_str().is_empty() && starts_with(
                "command",
                to_lower(name.as_str()).as_str(),
            ),
            None => false,
        }
    } else {
        same_text_ignoring_case(word, "/c")
    }
}

/// The words from `from` on.
fn words_after(tokens: &[String], from: usize) -> (rest: Vec<String>)
    requires
        from <= tokens.len(),
    ensures
        strings::texts(rest@) == strings::texts(tokens@).skip(from as int),
{
    words_between(tokens, from, tokens.len())
}

/// The words from `from` up to `to`.
fn words_between(tokens: &[String], from: usize, to: usize) -> (part: Vec<String>)
    requires
        from <= to <= tokens.len(),
    ensures
        strings::texts(part@) == strings::texts(tokens@).subrange(from as int, to as int),
{
    let ghost words = strings::texts(tokens@);
    let mut part: Vec<String> = Vec::new();
    let mut i: usize = from;
    assert(strings::texts(part@) =~= words.subrange(from as int, i as int));
    while i < to
        invariant
            from <= i <= to <= tokens.len(),
            words == strings::texts(tokens@),
            strings::texts(part@) == words.subrange(from as int, i as int),
        decreases to - i,
    {
        let ghost before = part@;
        let word = tokens[i].clone();
        part.push(word);
        assert(strings::texts(part@) =~= strings::texts(before).push(word@));
        assert(words.subrange(from as int, i + 1) =~= words.subrange(from as int, i as int).push(
            words[i as int],
        ));
        i += 1;
    }
    part
}

/// The script that a shell is given: the word after the flag, or, for PowerShell
/// and `cmd`, all of them.
pub fn shell_payload(stem: &str, args: &[String]) -> (script: Option<String>)
    ensures
        ({
            let wanted = if is_shell(stem@) {
                script_from(stem@, strings::texts(args@), 0)
            } else {
                None
            };
            match script {
                Some(script) => wanted == Some(script@),
                None => wanted is None,
            }
        }),
{
    let ghost words = strings::texts(args@);
    let posix = runs_posix_shell(stem);
    if !posix && !runs_powershell(stem) && !same_text(stem, "cmd") {
        return None;
    }
    let mut i: usize = 0;
    while i < args.len()
        invariant
            i <= args.len(),
            words == strings::texts(args@),
            posix == is_posix_shell(stem@),
            is_shell(stem@),
            script_from(stem@, words, i as int) == script_from(stem@, words, 0),
        decreases args.len() - i,
    {
        assert(words[i as int] == args@[i as int]@);
        if announces_script(stem, args[i].as_str()) {
            if posix {
                if i + 1 < args.len() {
                    assert(words[i + 1] == args@[i + 1]@);
                    return Some(args[i + 1].clone());
                }
            } else {
                let rest = words_after(args, i + 1);
                return Some(join(&rest, " "));
            }
        }
        i += 1;
    }
    None
}

/// The message for a recursive deletion of a protected fragment.
pub fn protected_recursive_delete_message(fragment: &str) -> (message: String)
    ensures
        message@ == recursive_message(fragment@),
{
    let mut message =
        "recursive deletion references configured protected path fragment ".to_owned();
    message.append(debug_text(fragment).as_str());
    message.append(
        "; remove or change the fragment in .contextmink.toml only for deliberate human maintenance",
    );
    message
}

/// The message for a deletion of a protected fragment.
pub fn protected_delete_message(fragment: &str) -> (message: String)
    ensures
        message@ == delete_message(fragment@),
{
    let mut message = "deletion references configured protected path fragment ".to_owned();
    message.append(debug_text(fragment).as_str());
    message.append(
        "; remove or change the fragment in .contextmink.toml only for deliberate human maintenance",
    );
    message
}

/// The texts of an optional message.
pub open spec fn message_text(message: Option<String>) -> Option<Seq<char>> {
    match message {
        Some(message) => Some(message@),
        None => None,
    }
}

fn check_targets(
    targets: &[String],
    recursive: bool,
    config: &DestructiveGuardConfig,
    active: bool,
) -> (message: Option<String>)
    ensures
        message_text(message) == protected_target(
            strings::texts(targets@),
            recursive,
            config.rules(active),
        ),
{
    if recursive {
        if let Some(fragment) = any_fragment(targets, &config.recursive_delete_fragments) {
            return Some(protected_recursive_delete_message(fragment.as_str()));
        }
    }
    match any_fragment(targets, &config.delete_fragments) {
        Some(fragment) => Some(protected_delete_message(fragment.as_str())),
        None => None,
    }
}

fn check_find_targets(args: &[String], config: &DestructiveGuardConfig, active: bool) -> (message:
    Option<String>)
    ensures
        message_text(message) == find_target(strings::texts(args@), config.rules(active)),
{
    if active {
        check_targets(args, true, config, active)
    } else {
        None
    }
}

/// Whether the command behind `-exec` deletes.
pub fn find_exec_is_delete(tokens: &[String], dialect: ShellDialect) -> (held: bool)
    ensures
        held == exec_deletes(strings::texts(tokens@), dialect),
{
    match command_program_index(tokens, dialect) {
        Some(i) => {
            assert(strings::texts(tokens@)[i as int] == tokens@[i as int]@);
            deletes(stem_lower(tokens[i].as_str()).as_str())
        },
        None => false,
    }
}

/// The message with which a command, as a list of words, is denied.
pub fn deny_command(
    tokens: &[String],
    config: &DestructiveGuardConfig,
    depth: usize,
    dialect: ShellDialect,
    configured_rules_active: bool,
) -> (message: Option<String>)
    ensures
        message_text(message) == denied_command(
            strings::texts(tokens@),
            config.rules(configured_rules_active),
            depth as nat,
            dialect,
        ),
    decreases room(depth as nat), 0nat, 3nat, 0nat,
{
    if depth > MAX_NESTED_SHELL_DEPTH {
        return Some(NESTING_MESSAGE.to_owned());
    }
    if let Some(payload) = env_split_string_payload(tokens) {
        let message = deny_shell_payload(
            payload.as_str(),
            config,
            depth + 1,
            ShellDialect::Posix,
            configured_rules_active,
        );
        if message.is_some() {
            return message;
        }
    }
    match command_program_index(tokens, dialect) {
        None => None,
        Some(at) => {
            assert(strings::texts(tokens@)[at as int] == tokens@[at as int]@);
            let stem = stem_lower(tokens[at].as_str());
            let args = words_after(tokens, at + 1);
            deny_program(stem.as_str(), &args, config, depth, dialect, configured_rules_active)
        },
    }
}

fn has_encoded_flag(args: &[String]) -> (held: bool)
    ensures
        held == exists|i: int|
            0 <= i < args@.len() && deletion::is_encoded_flag(
                #[trigger] strings::texts(args@)[i],
            ),
{
    let ghost words = strings::texts(args@);
    let mut i: usize = 0;
    while i < args.len()
        invariant
            i <= args.len(),
            words == strings::texts(args@),
            forall|k: int| 0 <= k < i ==> !deletion::is_encoded_flag(#[trigger] words[k]),
        decreases args.len() - i,
    {
        assert(words[i as int] == args@[i as int]@);
        if powershell_encoded_flag(args[i].as_str()) {
            return true;
        }
        i += 1;
    }
    false
}

/// The message with which a program with these arguments is denied.
fn deny_program(
    stem: &str,
    args: &[String],
    config: &DestructiveGuardConfig,
    depth: usize,
    dialect: ShellDialect,
    configured_rules_active: bool,
) -> (message: Option<String>)
    requires
        depth <= MAX_NESTED_SHELL_DEPTH,
    ensures
        message_text(message) == denied_program(
            stem@,
            strings::texts(args@),
            config.rules(configured_rules_active),
            depth as nat,
            dialect,
        ),
    decreases room(depth as nat), 0nat, 2nat, 0nat,
{
    if same_text(stem, "git") {
        let message = deny_git(args, config, depth, configured_rules_active);
        if message.is_some() {
            return message;
        }
    }
    if runs_powershell(stem) && has_encoded_flag(args) {
        return Some(ENCODED_MESSAGE.to_owned());
    }
    if let Some(script) = shell_payload(stem, args) {
        let message = deny_shell_payload(
            script.as_str(),
            config,
            depth + 1,
            shell_dialect(stem),
            configured_rules_active,
        );
        if message.is_some() {
            return message;
        }
    }
    if same_text(stem, "eval") && args.len() > 0 {
        let script = join(args, " ");
        let message = deny_shell_payload(
            script.as_str(),
            config,
            depth + 1,
            ShellDialect::Posix,
            configured_rules_active,
        );
        if message.is_some() {
            return message;
        }
    }
    if same_text(stem, "find") {
        let message = deny_find_command(args, config, depth, dialect, configured_rules_active);
        if message.is_some() {
            return message;
        }
    }
    if !deletes(stem) || !configured_rules_active {
        return None;
    }
    let targets = path_operands(stem, args);
    check_targets(&targets, deletes_recursively(stem, args), config, configured_rules_active)
}

/// The message with which a git command is denied.
fn deny_git(
    args: &[String],
    config: &DestructiveGuardConfig,
    depth: usize,
    configured_rules_active: bool,
) -> (message: Option<String>)
    requires
        depth <= MAX_NESTED_SHELL_DEPTH,
    ensures
        message_text(message) == denied_git(
            strings::texts(args@),
            config.rules(configured_rules_active),
            depth as nat,
        ),
    decreases room(depth as nat), 0nat, 1nat, args@.len() + 1,
{
    match git_subcommand(args) {
        None => None,
        Some((at, subcommand)) => {
            let message = deny_invoked_inline_git_alias(
                args,
                config,
                depth,
                configured_rules_active,
            );
            if message.is_some() {
                return message;
            }
            if same_text_ignoring_case(subcommand.as_str(), "clean") {
                return Some(GIT_CLEAN_MESSAGE.to_owned());
            }
            if configured_rules_active && same_text_ignoring_case(subcommand.as_str(), "rm") {
                let rest = words_after(args, at + 1);
                if !git_rm_is_harmless(&rest) {
                    let targets = path_operands("git-rm", &rest);
                    return check_targets(
                        &targets,
                        has_recursive_flag(&rest),
                        config,
                        configured_rules_active,
                    );
                }
            }
            None
        },
    }
}

/// What an alias setting makes of the invoked subcommand.
fn alias_script(setting: &str, subcommand: &str) -> (payload: Option<String>)
    ensures
        message_text(payload) == alias_payload(setting@, subcommand@),
{
    match split_first(setting, CharClass::Only('=')) {
        None => None,
        Some((key, value)) => {
            let chars = chars_of(key.as_str());
            if chars.len() < 6 {
                return None;
            }
            let head = cut_string(&chars, 0, 6);
            let tail = cut_string(&chars, 6, chars.len());
            if !same_text_ignoring_case(head.as_str(), "alias.") || !same_text_ignoring_case(
                tail.as_str(),
                subcommand,
            ) {
                return None;
            }
            match strip_prefix(value.as_str(), "!") {
                Some(script) => Some(script),
                None => {
                    let mut script = "git ".to_owned();
                    script.append(value.as_str());
                    Some(script)
                },
            }
        },
    }
}

/// The message with which an alias given on the command line is denied, where it
/// is the one invoked.
pub fn deny_invoked_inline_git_alias(
    args: &[String],
    config: &DestructiveGuardConfig,
    depth: usize,
    configured_rules_active: bool,
) -> (message: Option<String>)
    requires
        depth <= MAX_NESTED_SHELL_DEPTH,
    ensures
        message_text(message) == denied_alias(
            strings::texts(args@),
            config.rules(configured_rules_active),
            depth as nat,
            0,
        ),
    decreases room(depth as nat), 0nat, 1nat, args@.len(),
{
    let ghost words = strings::texts(args@);
    let ghost rules = config.rules(configured_rules_active);
    match git_subcommand(args) {
        None => None,
        Some((at, subcommand)) => {
            let mut i: usize = 0;
            while i < at
                invariant
                    i <= args.len(),
                    at < args.len(),
                    depth <= MAX_NESTED_SHELL_DEPTH,
                    words == strings::texts(args@),
                    rules == config.rules(configured_rules_active),
                    at == program::git_subcommand_at(words, 0),
                    subcommand@ == words[at as int],
                    denied_alias(words, rules, depth as nat, i as int) == denied_alias(
                        words,
                        rules,
                        depth as nat,
                        0,
                    ),
                decreases args.len() - i,
            {
                assert(words[i as int] == args@[i as int]@);
                if !same_text(args[i].as_str(), "-c") {
                    if git_global_option_takes_value(args[i].as_str()) && args.len() - i >= 2 {
                        i += 2;
                    } else {
                        i += 1;
                    }
                } else if i + 1 >= args.len() {
                    return None;
                } else {
                    assert(words[i + 1] == args@[i + 1]@);
                    if let Some(payload) = alias_script(
                        args[i + 1].as_str(),
                        subcommand.as_str(),
                    ) {
                        let denied = deny_shell_payload(
                            payload.as_str(),
                            config,
                            depth + 1,
                            ShellDialect::Posix,
                            configured_rules_active,
                        );
                        if let Some(reason) = denied {
                            let mut message = "invoked inline Git alias ".to_owned();
                            message.append(debug_text(subcommand.as_str()).as_str());
                            message.append(" resolves to a blocked command: ");
                            message.append(reason.as_str());
                            return Some(message);
                        }
                    }
                    i += 2;
                }
            }
            None
        },
    }
}

/// The message with which a `find` command is denied: for `-delete`, or for what
/// it has `-exec` run.
pub fn deny_find_command(
    args: &[String],
    config: &DestructiveGuardConfig,
    depth: usize,
    dialect: ShellDialect,
    configured_rules_active: bool,
) -> (message: Option<String>)
    requires
        depth <= MAX_NESTED_SHELL_DEPTH,
    ensures
        message_text(message) == denied_find(
            strings::texts(args@),
            config.rules(configured_rules_active),
            depth as nat,
            dialect,
        ),
    decreases room(depth as nat), 0nat, 1nat, args@.len() + 1,
{
    let ghost words = strings::texts(args@);
    let ghost rules = config.rules(configured_rules_active);
    let target = check_find_targets(args, config, configured_rules_active);
    if has_word(args, "-delete") && target.is_some() {
        return target;
    }
    let mut i: usize = 0;
    while i < args.len()
        invariant
            i <= args.len(),
            depth <= MAX_NESTED_SHELL_DEPTH,
            words == strings::texts(args@),
            rules == config.rules(configured_rules_active),
            message_text(target) == find_target(words, rules),
            denied_exec(words, rules, depth as nat, dialect, i as int) == denied_exec(
                words,
                rules,
                depth as nat,
                dialect,
                0,
            ),
            denied_find(words, rules, depth as nat, dialect) == denied_exec(
                words,
                rules,
                depth as nat,
                dialect,
                0,
            ),
        decreases args.len() - i,
    {
        assert(words[i as int] == args@[i as int]@);
        let word = args[i].as_str();
        if !same_text(word, "-exec") && !same_text(word, "-execdir") {
            i += 1;
        } else {
            let end = find_exec_end(args, i + 1);
            let command = words_between(args, i + 1, end);
            let message = deny_command(
                &command,
                config,
                depth + 1,
                dialect,
                configured_rules_active,
            );
            if message.is_some() {
                return message;
            }
            if find_exec_is_delete(&command, dialect) && target.is_some() {
                return target;
            }
            i = if end < args.len() {
                end + 1
            } else {
                end
            };
        }
    }
    None
}

fn has_word(args: &[String], word: &str) -> (held: bool)
    ensures
        held == strings::texts(args@).contains(word@),
{
    let ghost words = strings::texts(args@);
    let mut i: usize = 0;
    while i < args.len()
        invariant
            i <= args.len(),
            words == strings::texts(args@),
            forall|k: int| 0 <= k < i ==> #[trigger] words[k] != word@,
        decreases args.len() - i,
    {
        assert(words[i as int] == args@[i as int]@);
        if same_text(args[i].as_str(), word) {
            return true;
        }
        i += 1;
    }
    false
}

fn find_exec_end(args: &[String], from: usize) -> (end: usize)
    requires
        from <= args.len(),
    ensures
        end == exec_end(strings::texts(args@), from as int),
        from <= end <= args.len(),
{
    let ghost words = strings::texts(args@);
    let mut i: usize = from;
    while i < args.len() && !same_text(args[i].as_str(), ";") && !same_text(args[i].as_str(), "+")
        invariant
            from <= i <= args.len(),
            words == strings::texts(args@),
            exec_end(words, i as int) == exec_end(words, from as int),
        decreases args.len() - i,
    {
        assert(words[i as int] == args@[i as int]@);
        i += 1;
    }
    if i < args.len() {
        assert(words[i as int] == args@[i as int]@);
    }
    i
}

/// The words of a command with known variables replaced.
fn replace_variables(command: &Vec<String>, log: &VariableLog) -> (words: Vec<String>)
    ensures
        strings::texts(words@) == with_variables(strings::texts(command@), known(log@)),
{
    let ghost all = with_variables(strings::texts(command@), known(log@));
    let mut words: Vec<String> = Vec::new();
    let mut i: usize = 0;
    while i < command.len()
        invariant
            i <= command.len(),
            all == with_variables(strings::texts(command@), known(log@)),
            strings::texts(words@) == all.take(i as int),
        decreases command.len() - i,
    {
        let ghost before = words@;
        let word = match posix_variable_reference(command[i].as_str()) {
            Some(name) => match look_up(log, name.as_str()) {
                Some(value) => value,
                None => command[i].clone(),
            },
            None => command[i].clone(),
        };
        assert(all[i as int] == word@);
        words.push(word);
        assert(strings::texts(words@) =~= strings::texts(before).push(word@));
        assert(all.take(i + 1) =~= all.take(i as int).push(all[i as int]));
        i += 1;
    }
    assert(all.take(i as int) =~= all);
    words
}

fn only_assignments(words: &[String]) -> (held: bool)
    ensures
        held == all_assignments(strings::texts(words@)),
{
    let ghost all = strings::texts(words@);
    let mut i: usize = 0;
    while i < words.len()
        invariant
            i <= words.len(),
            all == strings::texts(words@),
            forall|k: int| 0 <= k < i ==> program::is_assignment(#[trigger] all[k]),
        decreases words.len() - i,
    {
        assert(all[i as int] == words@[i as int]@);
        if !shell_assignment(words[i].as_str()) {
            return false;
        }
        i += 1;
    }
    true
}

/// Notes the assignments of a command.
fn note_assignments(log: &mut VariableLog, words: &[String])
    requires
        all_assignments(strings::texts(words@)),
    ensures
        known(final(log)@) == assigned(known(old(log)@), strings::texts(words@), 0),
{
    let ghost all = strings::texts(words@);
    let ghost wanted = assigned(known(log@), all, 0);
    let mut i: usize = 0;
    while i < words.len()
        invariant
            i <= words.len(),
            all == strings::texts(words@),
            all_assignments(all),
            assigned(known(log@), all, i as int) == wanted,
        decreases words.len() - i,
    {
        assert(all[i as int] == words@[i as int]@);
        assert(program::is_assignment(all[i as int]));
        if let Some((name, value)) = split_first(words[i].as_str(), CharClass::Only('=')) {
            let ghost before = log@;
            if literal_shell_value(value.as_str()) {
                log.push((name, Some(value)));
                assert(log@.drop_last() =~= before);
            } else {
                log.push((name, None));
                assert(log@.drop_last() =~= before);
            }
        }
        i += 1;
    }
}

/// The message with which a shell payload is denied: for one of its commands, or
/// for one of its command substitutions.
pub fn deny_shell_payload(
    payload: &str,
    config: &DestructiveGuardConfig,
    depth: usize,
    dialect: ShellDialect,
    configured_rules_active: bool,
) -> (message: Option<String>)
    ensures
        message_text(message) == denied_payload(
            payload@,
            config.rules(configured_rules_active),
            depth as nat,
            dialect,
        ),
    decreases room(depth as nat), payload@.len(), 9nat, 0nat,
{
    let parsed = parse_shell_payload(payload, dialect);
    let ghost rules = config.rules(configured_rules_active);
    let ghost model = shell_parse::parsed(payload@, dialect);
    let ghost commands = model.commands;
    let posix = dialect == ShellDialect::Posix;
    let mut log: VariableLog = Vec::new();
    let mut i: usize = 0;
    while i < parsed.commands.len()
        invariant
            i <= parsed.commands.len(),
            posix == (dialect == ShellDialect::Posix),
            rules == config.rules(configured_rules_active),
            parsed.model() == model,
            commands == model.commands,
            model == shell_parse::parsed(payload@, dialect),
            denied_commands(commands, rules, depth as nat, dialect, known(log@), i as int)
                == denied_commands(commands, rules, depth as nat, dialect, Map::empty(), 0),
        decreases parsed.commands.len() - i,
    {
        assert(commands[i as int] == strings::texts(parsed.commands@[i as int]@));
        let command = if posix {
            replace_variables(&parsed.commands[i], &log)
        } else {
            copy_strings(&parsed.commands[i])
        };
        match expand_literal_braces(&command) {
            Err(_) => {
                let message = deny_command(
                    &command,
                    config,
                    depth,
                    dialect,
                    configured_rules_active,
                );
                if message.is_some() {
                    return message;
                }
            },
            Ok(variants) => {
                let ghost all = shell_parse::command_texts(variants@);
                let mut v: usize = 0;
                while v < variants.len()
                    invariant
                        v <= variants.len(),
                        all == shell_parse::command_texts(variants@),
                        rules == config.rules(configured_rules_active),
                        braces::command_variants(strings::texts(command@)) == Some(all),
                        denied_variants(all, rules, depth as nat, dialect, v as int)
                            == denied_variants(all, rules, depth as nat, dialect, 0),
                        // what a message found here makes of the whole payload
                        i < parsed.commands.len(),
                        model == shell_parse::parsed(payload@, dialect),
                        commands == model.commands,
                        parsed.model() == model,
                        strings::texts(command@) == if posix {
                            with_variables(commands[i as int], known(log@))
                        } else {
                            commands[i as int]
                        },
                        posix == (dialect == ShellDialect::Posix),
                        denied_commands(
                            commands,
                            rules,
                            depth as nat,
                            dialect,
                            known(log@),
                            i as int,
                        ) == denied_commands(
                            commands,
                            rules,
                            depth as nat,
                            dialect,
                            Map::empty(),
                            0,
                        ),
                    decreases variants.len() - v,
                {
                    assert(all[v as int] == strings::texts(variants@[v as int]@));
                    let message = deny_command(
                        &variants[v],
                        config,
                        depth,
                        dialect,
                        configured_rules_active,
                    );
                    if message.is_some() {
                        return message;
                    }
                    v += 1;
                }
                if posix && only_assignments(&command) {
                    note_assignments(&mut log, &command);
                }
            },
        }
        i += 1;
    }
    let next_depth: usize = if depth > MAX_NESTED_SHELL_DEPTH {
        depth
    } else {
        depth + 1
    };
    let mut k: usize = 0;
    while k < parsed.substitutions.len()
        invariant
            k <= parsed.substitutions.len(),
            rules == config.rules(configured_rules_active),
            parsed.model() == model,
            model == shell_parse::parsed(payload@, dialect),
            next_depth as nat == deeper(depth as nat),
            denied_payload(payload@, rules, depth as nat, dialect) == denied_substitutions(
                payload@,
                rules,
                depth as nat,
                dialect,
                0,
            ),
            denied_substitutions(payload@, rules, depth as nat, dialect, k as int)
                == denied_substitutions(payload@, rules, depth as nat, dialect, 0),
        decreases parsed.substitutions.len() - k,
    {
        proof {
            shell_parse::lemma_substitutions_are_shorter(payload@, dialect);
        }
        assert(model.substitutions[k as int] == parsed.substitutions@[k as int]@);
        let message = deny_shell_payload(
            parsed.substitutions[k].as_str(),
            config,
            next_depth,
            dialect,
            configured_rules_active,
        );
        if message.is_some() {
            return message;
        }
        k += 1;
    }
    None
}

/// The message with which an argv is denied, the configured fragments applying
/// or not.
pub fn deny_destructive_argv_scoped(
    argv: &[String],
    config: &DestructiveGuardConfig,
    configured_rules_active: bool,
) -> (message: Option<String>)
    ensures
        message_text(message) == denied_argv(
            strings::texts(argv@),
            config.rules(configured_rules_active),
        ),
{
    deny_command(argv, config, 0, ShellDialect::Posix, configured_rules_active)
}

/// The message with which an argv is denied.
pub fn deny_destructive_argv(argv: &[String], config: &DestructiveGuardConfig) -> (message: Option<
    String,
>)
    ensures
        message_text(message) == denied_argv(strings::texts(argv@), config.rules(true)),
{
    deny_destructive_argv_scoped(argv, config, true)
}

/// The message with which an argv is denied under the rules.
pub open spec fn denied_argv(argv: Seq<Seq<char>>, rules: Rules) -> Option<Seq<char>> {
    denied_command(argv, rules, 0, ShellDialect::Posix)
}

/// Whether a decision is the one for a denial with this message, if any.
pub open spec fn decides(
    decision: DenyDecision,
    denial: Option<Seq<char>>,
    override_active: bool,
) -> bool {
    match denial {
        None => decision is Allow,
        Some(text) => if override_active {
            decision matches DenyDecision::AllowWithOverride { message } && message@ == text
        } else {
            decision matches DenyDecision::Deny { message } && message@ == text
        },
    }
}

/// The verdict on an argv, the configured fragments applying or not. They do not
/// apply to a command that belongs to another checkout.
pub fn evaluate_argv_with_config_scope(
    argv: &[String],
    config: &DestructiveGuardConfig,
    override_active: bool,
    configured_rules_active: bool,
) -> (decision: DenyDecision)
    ensures
        decides(
            decision,
            denied_argv(strings::texts(argv@), config.rules(configured_rules_active)),
            override_active,
        ),
{
    match deny_destructive_argv_scoped(argv, config, configured_rules_active) {
        None => DenyDecision::Allow,
        Some(message) => if override_active {
            DenyDecision::AllowWithOverride { message }
        } else {
            DenyDecision::Deny { message }
        },
    }
}

/// The verdict on an argv.
pub fn evaluate_argv(
    argv: &[String],
    config: &DestructiveGuardConfig,
    override_active: bool,
) -> (decision: DenyDecision)
    ensures
        decides(
            decision,
            denied_argv(strings::texts(argv@), config.rules(true)),
            override_active,
        ),
{
    evaluate_argv_with_config_scope(argv, config, override_active, true)
}

/// `git clean` is denied however it is configured, in whatever scope, and at
/// whatever depth it is found.
pub proof fn git_clean_is_always_denied(
    words: Seq<Seq<char>>,
    rules: Rules,
    depth: nat,
    dialect: ShellDialect,
)
    requires
        program::program_index(words, dialect) matches Some(at) && {
            let args = words.skip(at + 1);
            let sub = program::git_subcommand_at(args, 0);
            &&& program::program_stem(words[at]) == "git"@
            &&& sub < args.len()
            &&& strings::same_ignoring_case(args[sub], "clean"@)
        },
    ensures
        denied_command(words, rules, depth, dialect) is Some,
{
    if depth <= MAX_NESTED_SHELL_DEPTH {
        let at = program::program_index(words, dialect)->0;
        let args = words.skip(at + 1);
        assert(denied_git(args, rules, depth) is Some);
        assert(denied_program("git"@, args, rules, depth, dialect) is Some);
    }
}

/// The rules without the configured fragments.
pub open spec fn built_in() -> Rules {
    Rules { recursive: Seq::empty(), delete: Seq::empty(), active: false }
}

/// How the denial under some rules relates to the one under the built-in rules:
/// the same where the configured fragments do not apply, and never weaker.
pub open spec fn extends_built_in(
    denial: Option<Seq<char>>,
    plain: Option<Seq<char>>,
    rules: Rules,
) -> bool {
    &&& !rules.active ==> denial == plain
    &&& plain is Some ==> denial is Some
}

/// Configured fragments only ever add denials, and outside their scope they have
/// no effect at all.
pub proof fn fragments_only_add_denials(argv: Seq<Seq<char>>, rules: Rules)
    ensures
        extends_built_in(denied_argv(argv, rules), denied_argv(argv, built_in()), rules),
{
    lemma_command_extends(argv, rules, 0, ShellDialect::Posix);
}

proof fn lemma_command_extends(
    words: Seq<Seq<char>>,
    rules: Rules,
    depth: nat,
    dialect: ShellDialect,
)
    ensures
        extends_built_in(
            denied_command(words, rules, depth, dialect),
            denied_command(words, built_in(), depth, dialect),
            rules,
        ),
    decreases room(depth), 0nat, 3nat, 0nat,
{
    if depth <= MAX_NESTED_SHELL_DEPTH {
        match program::env_payload(words, program::past_assignments(words, 0)) {
            Some(payload) => {
                lemma_payload_extends(payload, rules, depth + 1, ShellDialect::Posix);
            },
            None => {},
        }
        match program::program_index(words, dialect) {
            Some(at) => {
                lemma_program_extends(
                    program::program_stem(words[at]),
                    words.skip(at + 1),
                    rules,
                    depth,
                    dialect,
                );
            },
            None => {},
        }
    }
}

proof fn lemma_program_extends(
    stem: Seq<char>,
    args: Seq<Seq<char>>,
    rules: Rules,
    depth: nat,
    dialect: ShellDialect,
)
    requires
        depth <= MAX_NESTED_SHELL_DEPTH,
    ensures
        extends_built_in(
            denied_program(stem, args, rules, depth, dialect),
            denied_program(stem, args, built_in(), depth, dialect),
            rules,
        ),
    decreases room(depth), 0nat, 2nat, 0nat,
{
    let script = script_from(stem, args, 0);
    if script is Some {
        lemma_payload_extends(script->0, rules, depth + 1, dialect_of(stem));
    }
    lemma_payload_extends(
        strings::join_texts(args, " "@),
        rules,
        depth + 1,
        ShellDialect::Posix,
    );
    lemma_alias_extends(args, rules, depth, 0);
    lemma_exec_extends(args, rules, depth, dialect, 0);
    assert(extends_built_in(
        denied_git(args, rules, depth),
        denied_git(args, built_in(), depth),
        rules,
    ));
    assert(extends_built_in(
        denied_find(args, rules, depth, dialect),
        denied_find(args, built_in(), depth, dialect),
        rules,
    ));
}

proof fn lemma_alias_extends(args: Seq<Seq<char>>, rules: Rules, depth: nat, i: int)
    requires
        depth <= MAX_NESTED_SHELL_DEPTH,
    ensures
        extends_built_in(
            denied_alias(args, rules, depth, i),
            denied_alias(args, built_in(), depth, i),
            rules,
        ),
    decreases room(depth), 0nat, 1nat, args.len() - i,
{
    let at = program::git_subcommand_at(args, 0);
    if 0 <= i < at && at < args.len() {
        lemma_alias_extends(args, rules, depth, program::within(args, i + 1));
        lemma_alias_extends(args, rules, depth, program::within(args, i + 2));
        if i + 1 < args.len() {
            match alias_payload(args[i + 1], args[at]) {
                Some(payload) => {
                    lemma_payload_extends(payload, rules, depth + 1, ShellDialect::Posix);
                },
                None => {},
            }
        }
    }
}

proof fn lemma_exec_extends(
    args: Seq<Seq<char>>,
    rules: Rules,
    depth: nat,
    dialect: ShellDialect,
    i: int,
)
    requires
        depth <= MAX_NESTED_SHELL_DEPTH,
    ensures
        extends_built_in(
            denied_exec(args, rules, depth, dialect, i),
            denied_exec(args, built_in(), depth, dialect, i),
            rules,
        ),
    decreases room(depth), 0nat, 1nat, args.len() - i,
{
    if 0 <= i < args.len() {
        if !is_exec(args[i]) {
            lemma_exec_extends(args, rules, depth, dialect, i + 1);
        } else {
            lemma_exec_end_bounds(args, i + 1);
            let end = exec_end(args, i + 1);
            lemma_command_extends(args.subrange(i + 1, end), rules, depth + 1, dialect);
            lemma_exec_extends(args, rules, depth, dialect, program::within(args, end + 1));
        }
    }
}

proof fn lemma_payload_extends(
    payload: Seq<char>,
    rules: Rules,
    depth: nat,
    dialect: ShellDialect,
)
    ensures
        extends_built_in(
            denied_payload(payload, rules, depth, dialect),
            denied_payload(payload, built_in(), depth, dialect),
            rules,
        ),
    decreases room(depth), payload.len(), 9nat, 0nat,
{
    lemma_commands_extend(
        shell_parse::parsed(payload, dialect).commands,
        rules,
        depth,
        dialect,
        Map::empty(),
        0,
    );
    lemma_substitutions_extend(payload, rules, depth, dialect, 0);
}

proof fn lemma_commands_extend(
    commands: Seq<Seq<Seq<char>>>,
    rules: Rules,
    depth: nat,
    dialect: ShellDialect,
    values: Map<Seq<char>, Seq<char>>,
    i: int,
)
    ensures
        extends_built_in(
            denied_commands(commands, rules, depth, dialect, values, i),
            denied_commands(commands, built_in(), depth, dialect, values, i),
            rules,
        ),
    decreases room(depth), 0nat, 5nat, commands.len() - i,
{
    if 0 <= i < commands.len() {
        let posix = dialect == ShellDialect::Posix;
        let words = if posix {
            with_variables(commands[i], values)
        } else {
            commands[i]
        };
        match braces::command_variants(words) {
            None => {
                lemma_command_extends(words, rules, depth, dialect);
                lemma_commands_extend(commands, rules, depth, dialect, values, i + 1);
            },
            Some(variants) => {
                lemma_variants_extend(variants, rules, depth, dialect, 0);
                lemma_commands_extend(
                    commands,
                    rules,
                    depth,
                    dialect,
                    if posix && all_assignments(words) {
                        assigned(values, words, 0)
                    } else {
                        values
                    },
                    i + 1,
                );
            },
        }
    }
}

proof fn lemma_variants_extend(
    variants: Seq<Seq<Seq<char>>>,
    rules: Rules,
    depth: nat,
    dialect: ShellDialect,
    i: int,
)
    ensures
        extends_built_in(
            denied_variants(variants, rules, depth, dialect, i),
            denied_variants(variants, built_in(), depth, dialect, i),
            rules,
        ),
    decreases room(depth), 0nat, 4nat, variants.len() - i,
{
    if 0 <= i < variants.len() {
        lemma_command_extends(variants[i], rules, depth, dialect);
        lemma_variants_extend(variants, rules, depth, dialect, i + 1);
    }
}

proof fn lemma_substitutions_extend(
    payload: Seq<char>,
    rules: Rules,
    depth: nat,
    dialect: ShellDialect,
    i: int,
)
    ensures
        extends_built_in(
            denied_substitutions(payload, rules, depth, dialect, i),
            denied_substitutions(payload, built_in(), depth, dialect, i),
            rules,
        ),
    decreases
            room(depth),
            payload.len(),
            7nat,
            shell_parse::parsed(payload, dialect).substitutions.len() - i,
{
    let substitutions = shell_parse::parsed(payload, dialect).substitutions;
    if 0 <= i < substitutions.len() {
        shell_parse::lemma_substitutions_are_shorter(payload, dialect);
        lemma_payload_extends(substitutions[i], rules, deeper(depth), dialect);
        lemma_substitutions_extend(payload, rules, depth, dialect, i + 1);
    }
}

} // verus!
