//! The command line: the subcommands and their option groups, and what a refused
//! command line should have said.
use vstd::prelude::*;

use crate::output::ReceiptOptions;
use crate::strings;
use crate::strings::{same_text, split_first, starts_with, CharClass};

verus! {

/// Which configuration a command reads.
#[derive(Debug)]
pub struct ConfigSource {
    pub config: Option<String>,
    pub no_config: bool,
}

/// A subcommand with its option groups.
#[derive(Debug)]
pub enum Command {
    Files { receipt_options: ReceiptOptions, config_source: ConfigSource },
    Dirs { receipt_options: ReceiptOptions, config_source: ConfigSource },
    Grep { receipt_options: ReceiptOptions, config_source: ConfigSource },
    GrepTerms { receipt_options: ReceiptOptions, config_source: ConfigSource },
    Slice { receipt_options: ReceiptOptions, config_source: ConfigSource },
    Outline { receipt_options: ReceiptOptions, config_source: ConfigSource },
    JsonFind { receipt_options: ReceiptOptions, config_source: ConfigSource },
    JsonSelect { receipt_options: ReceiptOptions, config_source: ConfigSource },
    Sqlite { receipt_options: ReceiptOptions, config_source: ConfigSource },
    SqliteSchema { receipt_options: ReceiptOptions, config_source: ConfigSource },
    Capture { receipt_options: ReceiptOptions, config_source: ConfigSource },
    GuardHook { config_source: ConfigSource },
    GuardCheck { config_source: ConfigSource },
    GuardHookSnippet { config_source: ConfigSource },
    SetupUser,
    UninstallUser,
    SetupProject,
    UninstallProject,
}

/// What a command line says: the subcommand, and its option groups where every
/// command looks for them.
#[derive(Debug)]
pub struct Cli {
    pub json: bool,
    pub fail_if_truncated: bool,
    pub require_complete_scope: bool,
    pub config: Option<String>,
    pub no_config: bool,
    pub command: Command,
}

impl Command {
    /// The options of a command that leaves a receipt.
    pub open spec fn receipt_options_of(&self) -> Option<ReceiptOptions> {
        match self {
            Command::Files { receipt_options, .. }
            | Command::Dirs { receipt_options, .. }
            | Command::Grep { receipt_options, .. }
            | Command::GrepTerms { receipt_options, .. }
            | Command::Slice { receipt_options, .. }
            | Command::Outline { receipt_options, .. }
            | Command::JsonFind { receipt_options, .. }
            | Command::JsonSelect { receipt_options, .. }
            | Command::Sqlite { receipt_options, .. }
            | Command::SqliteSchema { receipt_options, .. }
            | Command::Capture { receipt_options, .. } => Some(*receipt_options),
            _ => None,
        }
    }

    /// The options of a command that reads a configuration.
    pub open spec fn config_source_of(&self) -> Option<ConfigSource> {
        match self {
            Command::Files { config_source, .. }
            | Command::Dirs { config_source, .. }
            | Command::Grep { config_source, .. }
            | Command::GrepTerms { config_source, .. }
            | Command::Slice { config_source, .. }
            | Command::Outline { config_source, .. }
            | Command::JsonFind { config_source, .. }
            | Command::JsonSelect { config_source, .. }
            | Command::Sqlite { config_source, .. }
            | Command::SqliteSchema { config_source, .. }
            | Command::Capture { config_source, .. }
            | Command::GuardHook { config_source }
            | Command::GuardCheck { config_source }
            | Command::GuardHookSnippet { config_source } => Some(*config_source),
            _ => None,
        }
    }

    pub fn receipt_options(&self) -> (options: Option<&ReceiptOptions>)
        ensures
            match options {
                Some(options) => self.receipt_options_of() == Some(*options),
                None => self.receipt_options_of() is None,
            },
    {
        match self {
            Command::Files { receipt_options, .. }
            | Command::Dirs { receipt_options, .. }
            | Command::Grep { receipt_options, .. }
            | Command::GrepTerms { receipt_options, .. }
            | Command::Slice { receipt_options, .. }
            | Command::Outline { receipt_options, .. }
            | Command::JsonFind { receipt_options, .. }
            | Command::JsonSelect { receipt_options, .. }
            | Command::Sqlite { receipt_options, .. }
            | Command::SqliteSchema { receipt_options, .. }
            | Command::Capture { receipt_options, .. } => Some(receipt_options),
            _ => None,
        }
    }

    pub fn config_source(&self) -> (source: Option<&ConfigSource>)
        ensures
            match source {
                Some(source) => self.config_source_of() == Some(*source),
                None => self.config_source_of() is None,
            },
    {
        match self {
            Command::Files { config_source, .. }
            | Command::Dirs { config_source, .. }
            | Command::Grep { config_source, .. }
            | Command::GrepTerms { config_source, .. }
            | Command::Slice { config_source, .. }
            | Command::Outline { config_source, .. }
            | Command::JsonFind { config_source, .. }
            | Command::JsonSelect { config_source, .. }
            | Command::Sqlite { config_source, .. }
            | Command::SqliteSchema { config_source, .. }
            | Command::Capture { config_source, .. }
            | Command::GuardHook { config_source }
            | Command::GuardCheck { config_source }
            | Command::GuardHookSnippet { config_source } => Some(config_source),
            _ => None,
        }
    }
}

impl Cli {
    /// Puts the subcommand's option groups where every command looks for them.
    pub fn resolve_command_options(self) -> (cli: Cli)
        ensures
            cli.json == self.json,
            cli.command == self.command,
            match self.command.receipt_options_of() {
                Some(options) => cli.fail_if_truncated == options.fail_if_truncated
                    && cli.require_complete_scope == options.require_complete_scope,
                None => cli.fail_if_truncated == self.fail_if_truncated
                    && cli.require_complete_scope == self.require_complete_scope,
            },
            match self.command.config_source_of() {
                Some(source) => strings::text_option(cli.config) == strings::text_option(source.config)
                    && cli.no_config == source.no_config,
                None => cli.config == self.config && cli.no_config == self.no_config,
            },
    {
        let (fail_if_truncated, require_complete_scope): (bool, bool) =
            match self.command.receipt_options() {
            Some(options) => (options.fail_if_truncated, options.require_complete_scope),
            None => (self.fail_if_truncated, self.require_complete_scope),
        };
        let (config, no_config): (Option<String>, bool) = match self.command.config_source() {
            Some(source) => {
                let config = match &source.config {
                    Some(config) => Some(config.clone()),
                    None => None,
                };
                (config, source.no_config)
            },
            None => (self.config, self.no_config),
        };
        Cli {
            json: self.json,
            fail_if_truncated,
            require_complete_scope,
            config,
            no_config,
            command: self.command,
        }
    }
}

/// The hook protocol leaves no room for JSON output.
pub fn validate_global_flags(cli: &Cli) -> (verdict: Result<(), &'static str>)
    ensures
        match verdict {
            Ok(_) => !(cli.json && cli.command is GuardHook),
            Err(message) => cli.json && cli.command is GuardHook && message@
                == "guard-hook uses the agent hook protocol; --json does not apply"@,
        },
{
    match cli.command {
        Command::GuardHook { .. } => if cli.json {
            Err("guard-hook uses the agent hook protocol; --json does not apply")
        } else {
            Ok(())
        },
        _ => Ok(()),
    }
}

/// The names of the subcommands.
pub open spec fn subcommands() -> Seq<Seq<char>> {
    seq![
        "files"@,
        "dirs"@,
        "grep"@,
        "grep-terms"@,
        "slice"@,
        "outline"@,
        "json-find"@,
        "json-select"@,
        "sqlite"@,
        "sqlite-schema"@,
        "capture"@,
        "guard-hook"@,
        "guard-check"@,
        "guard-hook-snippet"@,
        "setup-user"@,
        "uninstall-user"@,
        "setup-project"@,
        "uninstall-project"@,
    ]
}

/// The commands that leave a receipt come first, the others that read a
/// configuration come next.
pub open spec fn leaves_receipt(command: Seq<char>) -> bool {
    subcommands().take(11).contains(command)
}

pub open spec fn reads_config(command: Seq<char>) -> bool {
    subcommands().take(14).contains(command)
}

/// The names of the subcommands.
pub fn subcommand_names() -> (names: Vec<&'static str>)
    ensures
        names@.len() == 18,
        Seq::new(names@.len(), |i: int| names@[i]@) == subcommands(),
{
    let names: Vec<&'static str> = vec![
        "files",
        "dirs",
        "grep",
        "grep-terms",
        "slice",
        "outline",
        "json-find",
        "json-select",
        "sqlite",
        "sqlite-schema",
        "capture",
        "guard-hook",
        "guard-check",
        "guard-hook-snippet",
        "setup-user",
        "uninstall-user",
        "setup-project",
        "uninstall-project",
    ];
    assert(Seq::new(names@.len(), |i: int| names@[i]@) =~= subcommands());
    names
}

fn is_among_first(command: &str, n: usize) -> (held: bool)
    requires
        n <= 18,
    ensures
        held == subcommands().take(n as int).contains(command@),
{
    let names = subcommand_names();
    let ghost all = subcommands();
    let mut i: usize = 0;
    while i < n
        invariant
            i <= n <= 18,
            names@.len() == 18,
            all == subcommands(),
            all == Seq::new(names@.len(), |i: int| names@[i]@),
            forall|k: int| 0 <= k < i ==> all[k] != command@,
        decreases n - i,
    {
        assert(all[i as int] == names@[i as int]@);
        if same_text(names[i], command) {
            assert(all.take(n as int)[i as int] == command@);
            return true;
        }
        i += 1;
    }
    assert forall|k: int| 0 <= k < n implies all.take(n as int)[k] != command@ by {
        assert(all.take(n as int)[k] == all[k]);
    }
    false
}

/// Whether the flag is given, alone or with a value behind `=`.
pub open spec fn gives_flag(arg: Seq<char>, flag: Seq<char>) -> bool {
    arg == flag || (flag + "="@).is_prefix_of(arg)
}

pub open spec fn flag_present(args: Seq<Seq<char>>, flag: Seq<char>) -> bool {
    exists|i: int| 0 <= i < args.len() && gives_flag(#[trigger] args[i], flag)
}

fn has_flag(args: &[String], flag: &str) -> (held: bool)
    ensures
        held == flag_present(strings::texts(args@), flag@),
{
    let ghost texts = strings::texts(args@);
    let with_value = flag.to_owned().concat("=");
    let mut i: usize = 0;
    while i < args.len()
        invariant
            i <= args.len(),
            texts == strings::texts(args@),
            with_value@ == flag@ + "="@,
            forall|k: int| 0 <= k < i ==> !gives_flag(#[trigger] texts[k], flag@),
        decreases args.len() - i,
    {
        assert(texts[i as int] == args@[i as int]@);
        if same_text(args[i].as_str(), flag) || starts_with(args[i].as_str(), with_value.as_str()) {
            return true;
        }
        i += 1;
    }
    false
}

/// The subcommand, if only global and misplaced options stand before it.
pub open spec fn selected(args: Seq<Seq<char>>, at: int) -> Option<Seq<char>>
    decreases args.len() - at + 1,
{
    if at < 0 || at >= args.len() {
        None
    } else if args[at] == "--config"@ {
        selected(args, at + 2)
    } else if args[at] == "--json"@ || args[at] == "--fail-if-truncated"@ || args[at]
        == "--require-complete-scope"@ || args[at] == "--no-config"@
        || "--config="@.is_prefix_of(args[at]) {
        selected(args, at + 1)
    } else if subcommands().contains(args[at]) {
        Some(args[at])
    } else {
        None
    }
}

/// The subcommand of a command line, which starts with the program.
pub fn selected_subcommand(args: &[String]) -> (command: Option<String>)
    ensures
        strings::text_option(command) == selected(strings::texts(args@), 1),
{
    let ghost texts = strings::texts(args@);
    let mut i: usize = 1;
    while i < args.len()
        invariant
            texts == strings::texts(args@),
            1 <= i <= args.len() + 1,
            selected(texts, i as int) == selected(texts, 1),
        decreases args.len() + 1 - i,
    {
        assert(texts[i as int] == args@[i as int]@);
        let arg = args[i].as_str();
        if same_text(arg, "--config") {
            if i + 1 >= args.len() {
                assert(selected(texts, i + 2) is None);
                return None;
            }
            i += 2;
        } else if same_text(arg, "--json") || same_text(arg, "--fail-if-truncated") || same_text(
            arg,
            "--require-complete-scope",
        ) || same_text(arg, "--no-config") || starts_with(arg, "--config=") {
            i += 1;
        } else {
            let known = is_among_first(arg, 18);
            assert(subcommands().take(18) =~= subcommands());
            return if known {
                Some(args[i].clone())
            } else {
                None
            };
        }
    }
    None
}

/// The name of an option, without a value behind `=`.
pub open spec fn option_name(arg: Seq<char>) -> Seq<char> {
    match strings::split_at_first(arg, CharClass::Only('=')) {
        Some((name, _)) => name,
        None => arg,
    }
}

fn option_name_of(arg: &str) -> (name: String)
    ensures
        name@ == option_name(arg@),
{
    match split_first(arg, CharClass::Only('=')) {
        Some((name, _)) => name,
        None => arg.to_owned(),
    }
}

pub open spec fn is_config_option(name: Seq<char>) -> bool {
    name == "--config"@ || name == "--no-config"@
}

pub open spec fn is_receipt_option(name: Seq<char>) -> bool {
    name == "--fail-if-truncated"@ || name == "--require-complete-scope"@
}

pub open spec fn refused_option(command: Seq<char>, option: Seq<char>) -> Seq<char> {
    command + " does not accept "@ + option + ": "@ + (if is_config_option(option) {
        "it does not read .contextmink.toml"@
    } else {
        "it does not emit a contextmink receipt"@
    }) + "; remove "@ + option
}

pub open spec fn misplaced_option(command: Seq<char>, option: Seq<char>) -> Seq<char> {
    option + " is a "@ + command
        + " option; place it after the subcommand: `contextmink "@ + command + " "@ + option
        + " ...`"@
}

/// The first option from here on that the command does not take, or that stands
/// before it.
pub open spec fn misplaced_from(args: Seq<Seq<char>>, command: Seq<char>, place: int, at: int) -> Option<
    Seq<char>,
>
    decreases args.len() - at,
{
    if at < 0 || at >= args.len() {
        None
    } else {
        let option = option_name(args[at]);
        if !is_config_option(option) && !is_receipt_option(option) {
            misplaced_from(args, command, place, at + 1)
        } else if !(if is_config_option(option) {
            reads_config(command)
        } else {
            leaves_receipt(command)
        }) {
            Some(refused_option(command, option))
        } else if at < place {
            Some(misplaced_option(command, option))
        } else {
            misplaced_from(args, command, place, at + 1)
        }
    }
}

/// Where the command first stands.
pub open spec fn first_place(args: Seq<Seq<char>>, command: Seq<char>, at: int) -> int
    decreases args.len() - at,
{
    if at < 0 || at >= args.len() || args[at] == command {
        at
    } else {
        first_place(args, command, at + 1)
    }
}

pub open spec fn misplaced(args: Seq<Seq<char>>, command: Seq<char>) -> Option<Seq<char>> {
    let place = first_place(args, command, 0);
    if place >= args.len() {
        None
    } else {
        misplaced_from(args, command, place, 1)
    }
}

/// What to say of an option that the command does not take, or that stands before
/// it.
pub fn misplaced_option_guidance(args: &[String], command: &str) -> (guidance: Option<String>)
    ensures
        strings::text_option(guidance) == misplaced(strings::texts(args@), command@),
{
    let ghost texts = strings::texts(args@);
    let mut place: usize = 0;
    while place < args.len() && !same_text(args[place].as_str(), command)
        invariant
            place <= args.len(),
            texts == strings::texts(args@),
            first_place(texts, command@, place as int) == first_place(texts, command@, 0),
        decreases args.len() - place,
    {
        assert(texts[place as int] == args@[place as int]@);
        place += 1;
    }
    if place >= args.len() {
        return None;
    }
    assert(texts[place as int] == args@[place as int]@);
    let with_config = is_among_first(command, 14);
    let with_receipt = is_among_first(command, 11);
    let mut i: usize = 1;
    while i < args.len()
        invariant
            place < args.len(),
            1 <= i,
            texts == strings::texts(args@),
            place == first_place(texts, command@, 0),
            with_config == reads_config(command@),
            with_receipt == leaves_receipt(command@),
            misplaced_from(texts, command@, place as int, i as int) == misplaced(texts, command@),
        decreases args.len() - i,
    {
        assert(texts[i as int] == args@[i as int]@);
        let option = option_name_of(args[i].as_str());
        let of_config = same_text(option.as_str(), "--config") || same_text(
            option.as_str(),
            "--no-config",
        );
        let of_receipt = same_text(option.as_str(), "--fail-if-truncated") || same_text(
            option.as_str(),
            "--require-complete-scope",
        );
        if of_config || of_receipt {
            let takes = if of_config {
                with_config
            } else {
                with_receipt
            };
            if !takes {
                let reason = if of_config {
                    "it does not read .contextmink.toml"
                } else {
                    "it does not emit a contextmink receipt"
                };
                return Some(
                    command.to_owned().concat(" does not accept ").concat(option.as_str()).concat(
                        ": ",
                    ).concat(reason).concat("; remove ").concat(option.as_str()),
                );
            }
            if i < place {
                return Some(
                    option.clone().concat(" is a ").concat(command).concat(
                        " option; place it after the subcommand: `contextmink ",
                    ).concat(command).concat(" ").concat(option.as_str()).concat(" ...`"),
                );
            }
        }
        i += 1;
    }
    None
}

pub open spec fn first_word(args: Seq<Seq<char>>, at: int) -> Option<Seq<char>>
    decreases args.len() - at,
{
    if at < 0 || at >= args.len() {
        None
    } else if "-"@.is_prefix_of(args[at]) {
        first_word(args, at + 1)
    } else {
        Some(args[at])
    }
}

pub open spec fn renamed_command(word: Seq<char>) -> Option<Seq<char>> {
    if word == "hook-guard"@ {
        Some(
            "`hook-guard` was renamed `guard-hook`, and its `--command-field` now takes a JSON Pointer (`/tool_input/command`); update the hook command, for example by regenerating it with `contextmink guard-hook-snippet`"@,
        )
    } else if word == "hook-snippet"@ {
        Some(
            "`hook-snippet` was renamed `guard-hook-snippet`; its output registers `guard-hook`"@,
        )
    } else {
        None
    }
}

/// What to say of a subcommand that has another name now.
pub fn renamed_command_guidance(args: &[String]) -> (guidance: Option<&'static str>)
    ensures
        (match guidance {
            Some(guidance) => Some(guidance@),
            None => None,
        }) == (match first_word(strings::texts(args@), 1) {
            Some(word) => renamed_command(word),
            None => None,
        }),
{
    let ghost texts = strings::texts(args@);
    let mut i: usize = 1;
    while i < args.len()
        invariant
            1 <= i,
            texts == strings::texts(args@),
            first_word(texts, i as int) == first_word(texts, 1),
        decreases args.len() - i,
    {
        assert(texts[i as int] == args@[i as int]@);
        let arg = args[i].as_str();
        if !starts_with(arg, "-") {
            if same_text(arg, "hook-guard") {
                return Some(
                    "`hook-guard` was renamed `guard-hook`, and its `--command-field` now takes a JSON Pointer (`/tool_input/command`); update the hook command, for example by regenerating it with `contextmink guard-hook-snippet`",
                );
            }
            if same_text(arg, "hook-snippet") {
                return Some(
                    "`hook-snippet` was renamed `guard-hook-snippet`; its output registers `guard-hook`",
                );
            }
            return None;
        }
        i += 1;
    }
    None
}

/// A flag that has another name now.
#[derive(Debug)]
pub struct RenamedFlag {
    pub commands: Vec<&'static str>,
    pub flag: &'static str,
    pub guidance: &'static str,
}

/// The model of a flag that has another name now.
#[verifier::ext_equal]
pub struct Renamed {
    pub commands: Seq<Seq<char>>,
    pub flag: Seq<char>,
    pub guidance: Seq<char>,
}

impl View for RenamedFlag {
    type V = Renamed;

    open spec fn view(&self) -> Renamed {
        Renamed {
            commands: Seq::new(self.commands@.len(), |i: int| self.commands@[i]@),
            flag: self.flag@,
            guidance: self.guidance@,
        }
    }
}

/// The flags that have other names now. What is displayed is bounded by `--show-`
/// flags; `--max-` flags bound what is looked at or let in.
pub open spec fn renamed_table() -> Seq<Renamed> {
    seq![
        Renamed {
            commands: seq!["files"@, "grep"@, "grep-terms"@],
            flag: "--limit"@,
            guidance: "the displayed-file cap is `--show-files`; replace `--limit`"@,
        },
        Renamed {
            commands: seq!["dirs"@],
            flag: "--limit"@,
            guidance: "the displayed-directory cap is `--show-dirs`; replace `--limit`"@,
        },
        Renamed {
            commands: seq!["outline"@],
            flag: "--limit"@,
            guidance: "the displayed-row cap is `--show-items`; replace `--limit`"@,
        },
        Renamed {
            commands: seq!["outline"@],
            flag: "--max-items"@,
            guidance: "the displayed-row cap is `--show-items`; replace `--max-items`"@,
        },
        Renamed {
            commands: seq!["json-find"@],
            flag: "--limit"@,
            guidance: "the displayed-match cap is `--show-matches`; replace `--limit`"@,
        },
        Renamed {
            commands: seq!["json-select"@, "sqlite"@],
            flag: "--limit"@,
            guidance: "the displayed-row cap is `--show-rows`; replace `--limit`"@,
        },
        Renamed {
            commands: seq!["grep"@, "grep-terms"@],
            flag: "--lines-per-file"@,
            guidance: "the per-file sample cap is `--show-lines-per-file`; replace `--lines-per-file`"@,
        },
        Renamed {
            commands: seq!["grep"@, "grep-terms"@],
            flag: "--max-sample-lines"@,
            guidance: "the total sample-line cap is `--show-lines`; replace `--max-sample-lines`"@,
        },
        Renamed {
            commands: seq!["capture"@],
            flag: "--max-lines"@,
            guidance: "the displayed-line cap is `--show-lines`; replace `--max-lines`"@,
        },
        Renamed {
            commands: seq!["capture"@],
            flag: "--max-bytes"@,
            guidance: "the per-stream retention cap is `--show-bytes-per-stream`; replace `--max-bytes`"@,
        },
        Renamed {
            commands: seq!["slice"@],
            flag: "--max-lines"@,
            guidance: "the slice line ceiling is `--line-ceiling`; replace `--max-lines`"@,
        },
        Renamed {
            commands: seq!["files"@, "dirs"@, "grep"@, "grep-terms"@, "slice"@, "outline"@, "sqlite-schema"@, "capture"@],
            flag: "--max-line-chars"@,
            guidance: "the per-line character cap is `--show-line-chars`; replace `--max-line-chars`"@,
        },
        Renamed {
            commands: seq!["json-find"@, "json-select"@, "sqlite"@],
            flag: "--max-value-chars"@,
            guidance: "the per-value character cap is `--show-value-chars`; replace `--max-value-chars`"@,
        },
        Renamed {
            commands: seq!["sqlite-schema"@],
            flag: "--max-tables"@,
            guidance: "the displayed-table cap is `--show-tables`; replace `--max-tables`"@,
        },
        Renamed {
            commands: seq!["sqlite-schema"@],
            flag: "--max-columns"@,
            guidance: "the displayed-column cap is `--show-columns`; replace `--max-columns`"@,
        },
        Renamed {
            commands: seq!["sqlite-schema"@],
            flag: "--max-indexes"@,
            guidance: "the displayed-index cap is `--show-indexes`; replace `--max-indexes`"@,
        },
        Renamed {
            commands: seq!["sqlite-schema"@],
            flag: "--include-shadow"@,
            guidance: "shadow tables are included with `--with-shadow-tables`; replace `--include-shadow`"@,
        },
        Renamed {
            commands: seq!["sqlite-schema"@],
            flag: "--include-system"@,
            guidance: "system tables are included with `--with-system-tables`; replace `--include-system`"@,
        },
        Renamed {
            commands: seq!["json-find"@],
            flag: "--path-contains"@,
            guidance: "JSON Pointer filters are `--pointer-contains`; replace `--path-contains`"@,
        },
        Renamed {
            commands: seq!["json-find"@],
            flag: "--path-regex"@,
            guidance: "JSON Pointer filters are `--pointer-regex`; replace `--path-regex`"@,
        },
    ]
}

fn add_renamed(
    table: &mut Vec<RenamedFlag>,
    commands: Vec<&'static str>,
    flag: &'static str,
    guidance: &'static str,
)
    ensures
        renamed_models(final(table)@) == renamed_models(old(table)@).push(
            Renamed {
                commands: Seq::new(commands@.len(), |i: int| commands@[i]@),
                flag: flag@,
                guidance: guidance@,
            },
        ),
{
    let ghost before = table@;
    let row = RenamedFlag { commands, flag, guidance };
    table.push(row);
    assert(renamed_models(table@) =~= renamed_models(before).push(row@));
}

pub open spec fn renamed_models(table: Seq<RenamedFlag>) -> Seq<Renamed> {
    table.map_values(|row: RenamedFlag| row@)
}

fn renamed_flags() -> (table: Vec<RenamedFlag>)
    ensures
        renamed_models(table@) == renamed_table(),
{
    let mut table: Vec<RenamedFlag> = Vec::new();
    assert(renamed_models(table@) =~= Seq::empty());
    add_renamed(
        &mut table,
        vec!["files", "grep", "grep-terms"],
        "--limit",
        "the displayed-file cap is `--show-files`; replace `--limit`",
    );
    add_renamed(
        &mut table,
        vec!["dirs"],
        "--limit",
        "the displayed-directory cap is `--show-dirs`; replace `--limit`",
    );
    add_renamed(
        &mut table,
        vec!["outline"],
        "--limit",
        "the displayed-row cap is `--show-items`; replace `--limit`",
    );
    add_renamed(
        &mut table,
        vec!["outline"],
        "--max-items",
        "the displayed-row cap is `--show-items`; replace `--max-items`",
    );
    add_renamed(
        &mut table,
        vec!["json-find"],
        "--limit",
        "the displayed-match cap is `--show-matches`; replace `--limit`",
    );
    add_renamed(
        &mut table,
        vec!["json-select", "sqlite"],
        "--limit",
        "the displayed-row cap is `--show-rows`; replace `--limit`",
    );
    add_renamed(
        &mut table,
        vec!["grep", "grep-terms"],
        "--lines-per-file",
        "the per-file sample cap is `--show-lines-per-file`; replace `--lines-per-file`",
    );
    add_renamed(
        &mut table,
        vec!["grep", "grep-terms"],
        "--max-sample-lines",
        "the total sample-line cap is `--show-lines`; replace `--max-sample-lines`",
    );
    add_renamed(
        &mut table,
        vec!["capture"],
        "--max-lines",
        "the displayed-line cap is `--show-lines`; replace `--max-lines`",
    );
    add_renamed(
        &mut table,
        vec!["capture"],
        "--max-bytes",
        "the per-stream retention cap is `--show-bytes-per-stream`; replace `--max-bytes`",
    );
    add_renamed(
        &mut table,
        vec!["slice"],
        "--max-lines",
        "the slice line ceiling is `--line-ceiling`; replace `--max-lines`",
    );
    add_renamed(
        &mut table,
        vec!["files", "dirs", "grep", "grep-terms", "slice", "outline", "sqlite-schema", "capture"],
        "--max-line-chars",
        "the per-line character cap is `--show-line-chars`; replace `--max-line-chars`",
    );
    add_renamed(
        &mut table,
        vec!["json-find", "json-select", "sqlite"],
        "--max-value-chars",
        "the per-value character cap is `--show-value-chars`; replace `--max-value-chars`",
    );
    add_renamed(
        &mut table,
        vec!["sqlite-schema"],
        "--max-tables",
        "the displayed-table cap is `--show-tables`; replace `--max-tables`",
    );
    add_renamed(
        &mut table,
        vec!["sqlite-schema"],
        "--max-columns",
        "the displayed-column cap is `--show-columns`; replace `--max-columns`",
    );
    add_renamed(
        &mut table,
        vec!["sqlite-schema"],
        "--max-indexes",
        "the displayed-index cap is `--show-indexes`; replace `--max-indexes`",
    );
    add_renamed(
        &mut table,
        vec!["sqlite-schema"],
        "--include-shadow",
        "shadow tables are included with `--with-shadow-tables`; replace `--include-shadow`",
    );
    add_renamed(
        &mut table,
        vec!["sqlite-schema"],
        "--include-system",
        "system tables are included with `--with-system-tables`; replace `--include-system`",
    );
    add_renamed(
        &mut table,
        vec!["json-find"],
        "--path-contains",
        "JSON Pointer filters are `--pointer-contains`; replace `--path-contains`",
    );
    add_renamed(
        &mut table,
        vec!["json-find"],
        "--path-regex",
        "JSON Pointer filters are `--pointer-regex`; replace `--path-regex`",
    );
    assert(renamed_models(table@) =~~= renamed_table());
    table
}

fn is_among(words: &[&'static str], word: &str) -> (held: bool)
    ensures
        held == Seq::new(words@.len(), |i: int| words@[i]@).contains(word@),
{
    let ghost all = Seq::new(words@.len(), |i: int| words@[i]@);
    let mut i: usize = 0;
    while i < words.len()
        invariant
            i <= words.len(),
            all == Seq::new(words@.len(), |i: int| words@[i]@),
            forall|k: int| 0 <= k < i ==> all[k] != word@,
        decreases words.len() - i,
    {
        assert(all[i as int] == words@[i as int]@);
        if same_text(words[i], word) {
            return true;
        }
        i += 1;
    }
    false
}

/// What to say of the first row from here on for the command and one of the given
/// flags.
pub open spec fn renamed_from(given: spec_fn(Seq<char>) -> bool, command: Seq<char>, at: int) -> Option<
    Seq<char>,
>
    decreases renamed_table().len() - at,
{
    if at < 0 || at >= renamed_table().len() {
        None
    } else {
        let row = renamed_table()[at];
        if row.commands.contains(command) && given(row.flag) {
            Some(row.guidance)
        } else {
            renamed_from(given, command, at + 1)
        }
    }
}

pub open spec fn renamed_flag(command: Seq<char>, flag: Seq<char>) -> Option<Seq<char>> {
    renamed_from(|old: Seq<char>| old == option_name(flag), command, 0)
}

/// What to say of a flag of the command that has another name now.
pub fn renamed_flag_guidance(command: &str, flag: &str) -> (guidance: Option<&'static str>)
    ensures
        (match guidance {
            Some(guidance) => Some(guidance@),
            None => None,
        }) == renamed_flag(command@, flag@),
{
    let table = renamed_flags();
    let name = option_name_of(flag);
    let ghost models = renamed_models(table@);
    let ghost given = |old: Seq<char>| old == option_name(flag@);
    let mut i: usize = 0;
    while i < table.len()
        invariant
            i <= table.len(),
            models == renamed_models(table@),
            models == renamed_table(),
            name@ == option_name(flag@),
            given == (|old: Seq<char>| old == option_name(flag@)),
            renamed_from(given, command@, i as int) == renamed_flag(command@, flag@),
        decreases table.len() - i,
    {
        assert(models[i as int] == table@[i as int]@);
        if is_among(&table[i].commands, command) && same_text(table[i].flag, name.as_str()) {
            return Some(table[i].guidance);
        }
        i += 1;
    }
    None
}

pub open spec fn slice_window_flag(args: Seq<Seq<char>>) -> bool {
    flag_present(args, "--start"@) || flag_present(args, "--end"@) || flag_present(
        args,
        "--lines"@,
    ) || flag_present(args, "--start-line"@) || flag_present(args, "--end-line"@)
}

/// What to say of a command line that has no current form.
pub open spec fn noncanonical(args: Seq<Seq<char>>) -> Option<Seq<char>> {
    match selected(args, 1) {
        None => None,
        Some(command) => {
            if let Some(guidance) = misplaced(args, command) {
                Some(guidance)
            } else if command == "json-select"@ && flag_present(args, "--array"@) {
                Some(
                    "json-select uses `--at <KEY_OR_POINTER>` for arrays, objects, and scalars; replace `--array` with `--at`"@,
                )
            } else if command == "grep"@ && flag_present(args, "--path"@) {
                Some(
                    "grep paths are positional; use `contextmink grep --pattern <PATTERN> <PATH>...`"@,
                )
            } else if command == "grep"@ && !flag_present(args, "--pattern"@) && !flag_present(
                args,
                "--pattern-file"@,
            ) {
                Some(
                    "grep requires an explicit pattern; use `contextmink grep --pattern <PATTERN> <PATH>...` or `--pattern-file <FILE> <PATH>...`"@,
                )
            } else if command == "slice"@ && slice_window_flag(args) {
                Some(
                    "slice selects a window with `--range START:END` or `--tail N`; without either it reads from line 1 up to `--line-ceiling` lines"@,
                )
            } else {
                renamed_from(|old: Seq<char>| flag_present(args, old), command, 0)
            }
        },
    }
}

/// What to say of a command line that has no current form, if anything is known
/// of it.
pub fn noncanonical_form_guidance(args: &[String]) -> (guidance: Option<String>)
    ensures
        strings::text_option(guidance) == noncanonical(strings::texts(args@)),
{
    let ghost texts = strings::texts(args@);
    let command = match selected_subcommand(args) {
        Some(command) => command,
        None => {
            return None;
        },
    };
    let misplaced = misplaced_option_guidance(args, command.as_str());
    if misplaced.is_some() {
        return misplaced;
    }
    let name = command.as_str();
    if same_text(name, "json-select") && has_flag(args, "--array") {
        return Some(
            "json-select uses `--at <KEY_OR_POINTER>` for arrays, objects, and scalars; replace `--array` with `--at`".to_owned(),
        );
    }
    if same_text(name, "grep") && has_flag(args, "--path") {
        return Some(
            "grep paths are positional; use `contextmink grep --pattern <PATTERN> <PATH>...`".to_owned(),
        );
    }
    if same_text(name, "grep") && !has_flag(args, "--pattern") && !has_flag(
        args,
        "--pattern-file",
    ) {
        return Some(
            "grep requires an explicit pattern; use `contextmink grep --pattern <PATTERN> <PATH>...` or `--pattern-file <FILE> <PATH>...`".to_owned(),
        );
    }
    if same_text(name, "slice") && (has_flag(args, "--start") || has_flag(args, "--end")
        || has_flag(args, "--lines") || has_flag(args, "--start-line") || has_flag(
        args,
        "--end-line",
    )) {
        return Some(
            "slice selects a window with `--range START:END` or `--tail N`; without either it reads from line 1 up to `--line-ceiling` lines".to_owned(),
        );
    }
    let table = renamed_flags();
    let ghost models = renamed_models(table@);
    let ghost given = |old: Seq<char>| flag_present(texts, old);
    let mut i: usize = 0;
    while i < table.len()
        invariant
            i <= table.len(),
            texts == strings::texts(args@),
            models == renamed_models(table@),
            models == renamed_table(),
            given == (|old: Seq<char>| flag_present(texts, old)),
            renamed_from(given, name@, i as int) == noncanonical(texts),
        decreases table.len() - i,
    {
        assert(models[i as int] == table@[i as int]@);
        if is_among(&table[i].commands, name) && has_flag(args, table[i].flag) {
            return Some(table[i].guidance.to_owned());
        }
        i += 1;
    }
    None
}

/// A flag is given by an argument that is the flag, or the flag, an `=` and a value; an
/// argument that only begins like it gives another one.
pub proof fn flags_are_given_with_or_without_a_value(flag: Seq<char>, value: Seq<char>, c: char)
    requires
        c != '=',
    ensures
        gives_flag(flag, flag),
        gives_flag(flag + seq!['='] + value, flag),
        !gives_flag(flag + seq![c], flag),
        !gives_flag(flag + seq![c] + value, flag),
{
    reveal_strlit("=");
    assert("="@ =~= seq!['=']);
    let front = flag + "="@;
    let given = flag + seq!['='] + value;
    assert(front =~= given.take(front.len() as int));
    let longer = flag + seq![c];
    let other = flag + seq![c] + value;
    assert(longer.len() != flag.len() && other.len() != flag.len());
    if front.is_prefix_of(longer) {
        assert(longer[flag.len() as int] == front[flag.len() as int]);
    }
    if front.is_prefix_of(other) {
        assert(other[flag.len() as int] == front[flag.len() as int]);
    }
}

/// The name of an option is what stands before its first `=`.
pub proof fn option_names_end_at_the_equals(name: Seq<char>, value: Seq<char>)
    requires
        !name.contains('='),
    ensures
        option_name(name) == name,
        option_name(name + seq!['='] + value) == name,
{
    let arg = name + seq!['='] + value;
    strings::lemma_find_class_bounds(arg, CharClass::Only('='), 0);
    let at = strings::find_class(arg, CharClass::Only('='), 0);
    assert(arg[name.len() as int] == '=');
    if at < name.len() {
        assert(arg[at] == name[at]);
        assert(name.contains(name[at]));
    }
    assert(arg.subrange(0, at) =~= name);
    strings::lemma_find_class_bounds(name, CharClass::Only('='), 0);
    let none = strings::find_class(name, CharClass::Only('='), 0);
    if none < name.len() {
        assert(name.contains(name[none]));
    }
}

/// The command that is selected is one of those there are, and the first argument that
/// is no option of all commands.
pub proof fn selected_command_is_there(args: Seq<Seq<char>>, at: int)
    requires
        0 <= at,
        selected(args, at) is Some,
    ensures
        subcommands().contains(selected(args, at)->0),
        exists|i: int| at <= i < args.len() && #[trigger] args[i] == selected(args, at)->0,
    decreases args.len() - at + 1,
{
    if at < args.len() {
        if args[at] == "--config"@ {
            selected_command_is_there(args, at + 2);
        } else if args[at] == "--json"@ || args[at] == "--fail-if-truncated"@ || args[at]
            == "--require-complete-scope"@ || args[at] == "--no-config"@
            || "--config="@.is_prefix_of(args[at]) {
            selected_command_is_there(args, at + 1);
        } else {
            assert(args[at] == selected(args, at)->0);
        }
    }
}

/// An option that a command does not take is refused wherever it stands, and one that it
/// does take is refused in front of the command alone.
pub proof fn options_are_refused_in_the_wrong_place(
    args: Seq<Seq<char>>,
    command: Seq<char>,
    place: int,
    i: int,
)
    requires
        1 <= i < args.len(),
    ensures
        option_name(args[i]) == "--config"@ && !reads_config(command) ==> misplaced_from(
            args,
            command,
            place,
            1,
        ) is Some,
        option_name(args[i]) == "--fail-if-truncated"@ && !leaves_receipt(command)
            ==> misplaced_from(args, command, place, 1) is Some,
        option_name(args[i]) == "--config"@ && i < place ==> misplaced_from(args, command, place, 1)
            is Some,
{
    let option = option_name(args[i]);
    if (is_config_option(option) || is_receipt_option(option)) && (i < place || !(
    if is_config_option(option) {
        reads_config(command)
    } else {
        leaves_receipt(command)
    })) {
        lemma_misplaced(args, command, place, 1, i);
    }
    reveal_strlit("--config");
    reveal_strlit("--no-config");
    reveal_strlit("--fail-if-truncated");
    assert("--config"@.len() == 8 && "--no-config"@.len() == 11 && "--fail-if-truncated"@.len()
        == 19);
}

proof fn lemma_misplaced(args: Seq<Seq<char>>, command: Seq<char>, place: int, at: int, i: int)
    requires
        0 <= at <= i < args.len(),
        ({
            let option = option_name(args[i]);
            &&& is_config_option(option) || is_receipt_option(option)
            &&& i < place || !(if is_config_option(option) {
                reads_config(command)
            } else {
                leaves_receipt(command)
            })
        }),
    ensures
        misplaced_from(args, command, place, at) is Some,
    decreases args.len() - at,
{
    if at < i {
        lemma_misplaced(args, command, place, at + 1, i);
    }
}

} // verus!
