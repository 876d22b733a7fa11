//! Asking the guard about a command without running it.
use vstd::prelude::*;

use crate::destructive_guard;
use crate::destructive_guard::{evaluate_argv, DenyDecision, DestructiveGuardConfig};
use crate::hook_guard;
use crate::json;
use crate::json::{
    add_member, json_object, json_optional_text, json_text, json_texts, Json, JsonValue,
};
use crate::shell_parse::ShellDialect;
use crate::strings;
use crate::strings::{push_all, push_text, starts_with};

verus! {

/// What every report says of its reach.
pub const SCOPE_NOTE: &'static str = "Evaluates Contextmink rules only. Host approval policies are not evaluated; allow is not authorization to execute.";

/// Why a check is refused.
#[derive(Debug)]
pub enum CheckFault {
    /// The first argument is an option, never a program.
    Misplaced { first: String },
    BothInputs,
    NoInput,
}

/// The model of why a check is refused.
pub enum Fault {
    Misplaced(Seq<char>),
    BothInputs,
    NoInput,
}

impl View for CheckFault {
    type V = Fault;

    open spec fn view(&self) -> Fault {
        match self {
            CheckFault::Misplaced { first } => Fault::Misplaced(first@),
            CheckFault::BothInputs => Fault::BothInputs,
            CheckFault::NoInput => Fault::NoInput,
        }
    }
}

impl Fault {
    pub open spec fn text(self) -> Seq<char> {
        match self {
            Fault::Misplaced(first) => "guard-check received `"@ + first
                + "` as the first argv item; it is not a guard-check option (see `contextmink guard-check --help`). Place guard-check options before `--` and the argv after it"@,
            Fault::BothInputs => "guard-check accepts either --command or argv, not both"@,
            Fault::NoInput => "guard-check requires --command or argv"@,
        }
    }
}

impl CheckFault {
    pub fn message(&self) -> (message: String)
        ensures
            message@ == self@.text(),
    {
        match self {
            CheckFault::Misplaced { first } => "guard-check received `".to_owned().concat(
                first.as_str(),
            ).concat(
                "` as the first argv item; it is not a guard-check option (see `contextmink guard-check --help`). Place guard-check options before `--` and the argv after it",
            ),
            CheckFault::BothInputs =>
                "guard-check accepts either --command or argv, not both".to_owned(),
            CheckFault::NoInput => "guard-check requires --command or argv".to_owned(),
        }
    }
}

/// Why a check is refused, by what it is asked.
pub open spec fn check_fault(command: Option<Seq<char>>, argv: Seq<Seq<char>>) -> Option<Fault> {
    if argv.len() > 0 && argv[0].len() > 0 && argv[0][0] == '-' {
        Some(Fault::Misplaced(argv[0]))
    } else if command is Some && argv.len() > 0 {
        Some(Fault::BothInputs)
    } else if command is None && argv.len() == 0 {
        Some(Fault::NoInput)
    } else {
        None
    }
}

/// The dialect of a command text: that of a POSIX shell unless told otherwise.
pub open spec fn dialect_of(shell: Option<ShellDialect>) -> ShellDialect {
    match shell {
        Some(dialect) => dialect,
        None => ShellDialect::Posix,
    }
}

/// The argv that is judged: that of the shell that the command is handed to, or the
/// argv itself.
pub open spec fn judged_argv(
    command: Option<Seq<char>>,
    shell: Option<ShellDialect>,
    argv: Seq<Seq<char>>,
) -> Seq<Seq<char>> {
    match command {
        Some(command) => hook_guard::shell_argv(command, dialect_of(shell)),
        None => argv,
    }
}

/// The answer to a check.
#[derive(Debug)]
pub struct GuardCheck {
    /// The dialect of the command text, if one was given.
    pub shell: Option<ShellDialect>,
    /// Why the command would be denied.
    pub denial: Option<String>,
    pub policy_root: Option<String>,
    pub recursive_delete_fragments: Vec<String>,
    pub delete_fragments: Vec<String>,
}

/// Judges a command text or an argv, without an override, and runs nothing.
pub fn check_guard(
    command: Option<&str>,
    shell: Option<ShellDialect>,
    argv: &[String],
    config: &DestructiveGuardConfig,
    policy_root: Option<String>,
) -> (checked: Result<GuardCheck, CheckFault>)
    ensures
        match checked {
            Ok(check) => {
                &&& check_fault(strings::opt_text(command), strings::texts(argv@)) is None
                &&& check.shell == match command {
                    Some(_) => Some(dialect_of(shell)),
                    None => None,
                }
                &&& strings::text_option(check.denial) == destructive_guard::denied_argv(
                    judged_argv(strings::opt_text(command), shell, strings::texts(argv@)),
                    config.rules(true),
                )
                &&& check.policy_root == policy_root
                &&& strings::texts(check.recursive_delete_fragments@) == strings::texts(
                    config.recursive_delete_fragments@,
                )
                &&& strings::texts(check.delete_fragments@) == strings::texts(
                    config.delete_fragments@,
                )
            },
            Err(fault) => check_fault(strings::opt_text(command), strings::texts(argv@)) == Some(
                fault@,
            ),
        },
{
    let ghost given = strings::texts(argv@);
    assert(given.len() == argv@.len());
    if argv.len() > 0 {
        assert(given[0] == argv@[0]@);
        proof {
            reveal_strlit("-");
        }
        if starts_with(argv[0].as_str(), "-") {
            assert(given[0][0] == "-"@[0]);
            return Err(CheckFault::Misplaced { first: argv[0].clone() });
        }
    }
    let (used, decision) = match command {
        Some(command) => {
            if argv.len() > 0 {
                return Err(CheckFault::BothInputs);
            }
            let dialect = match shell {
                Some(dialect) => dialect,
                None => ShellDialect::Posix,
            };
            (Some(dialect), evaluate_argv(&dialect.command_argv(command), config, false))
        },
        None => {
            if argv.len() == 0 {
                return Err(CheckFault::NoInput);
            }
            (None, evaluate_argv(argv, config, false))
        },
    };
    let denial = match decision {
        DenyDecision::Allow => None,
        DenyDecision::AllowWithOverride { message } => Some(message),
        DenyDecision::Deny { message } => Some(message),
    };
    let mut recursive_delete_fragments: Vec<String> = Vec::new();
    push_all(&mut recursive_delete_fragments, &config.recursive_delete_fragments);
    let mut delete_fragments: Vec<String> = Vec::new();
    push_all(&mut delete_fragments, &config.delete_fragments);
    assert(strings::texts(recursive_delete_fragments@) =~= strings::texts(
        config.recursive_delete_fragments@,
    ));
    assert(strings::texts(delete_fragments@) =~= strings::texts(config.delete_fragments@));
    Ok(
        GuardCheck {
            shell: used,
            denial,
            policy_root,
            recursive_delete_fragments,
            delete_fragments,
        },
    )
}

impl GuardCheck {
    pub open spec fn kind(self) -> Seq<char> {
        match self.shell {
            Some(_) => "shell_command"@,
            None => "argv"@,
        }
    }

    pub open spec fn outcome(self) -> Seq<char> {
        match self.denial {
            Some(_) => "deny"@,
            None => "allow"@,
        }
    }

    pub open spec fn shell_name(self) -> Seq<char> {
        match self.shell {
            Some(ShellDialect::Posix) => "posix"@,
            Some(ShellDialect::Powershell) => "powershell"@,
            Some(ShellDialect::Cmd) => "cmd"@,
            None => "argv"@,
        }
    }

    fn input_kind(&self) -> (kind: &'static str)
        ensures
            kind@ == self.kind(),
    {
        match self.shell {
            Some(_) => "shell_command",
            None => "argv",
        }
    }

    fn decision(&self) -> (outcome: &'static str)
        ensures
            outcome@ == self.outcome(),
    {
        match self.denial {
            Some(_) => "deny",
            None => "allow",
        }
    }

    fn shell_word(&self) -> (name: &'static str)
        ensures
            name@ == self.shell_name(),
    {
        match self.shell {
            Some(dialect) => dialect.cli_name(),
            None => "argv",
        }
    }

    /// The report as a value.
    pub open spec fn value(self) -> Json {
        Json::Object(
            seq![
                ("schema"@, Json::Text("contextmink.guard_check.v1"@)),
                ("input_kind"@, Json::Text(self.kind())),
                (
                    "shell"@,
                    if self.shell is Some {
                        Json::Text(self.shell_name())
                    } else {
                        Json::Null
                    },
                ),
                ("decision"@, Json::Text(self.outcome())),
                ("message"@, optional(strings::text_option(self.denial))),
                ("executed"@, Json::Bool(false)),
                ("policy_scope"@, Json::Text("contextmink_only"@)),
                ("policy_root"@, optional(strings::text_option(self.policy_root))),
                (
                    "configured_rules"@,
                    Json::Object(
                        seq![
                            (
                                "recursive_delete_fragments"@,
                                json::text_array(
                                    strings::texts(self.recursive_delete_fragments@),
                                ),
                            ),
                            (
                                "delete_fragments"@,
                                json::text_array(strings::texts(self.delete_fragments@)),
                            ),
                        ],
                    ),
                ),
                ("override_applied"@, Json::Bool(false)),
                ("scope_note"@, Json::Text(SCOPE_NOTE@)),
            ],
        )
    }

    /// The report as a value.
    pub fn to_json(&self) -> (value: JsonValue)
        ensures
            value@ == self.value(),
    {
        let mut rules: Vec<(String, JsonValue)> = Vec::new();
        assert(json::member_models(rules@) =~= Seq::empty());
        add_member(
            &mut rules,
            "recursive_delete_fragments",
            json_texts(&self.recursive_delete_fragments),
        );
        add_member(&mut rules, "delete_fragments", json_texts(&self.delete_fragments));
        let rules = json_object(rules);
        let mut members: Vec<(String, JsonValue)> = Vec::new();
        assert(json::member_models(members@) =~= Seq::empty());
        add_member(&mut members, "schema", json_text("contextmink.guard_check.v1"));
        add_member(&mut members, "input_kind", json_text(self.input_kind()));
        let shell = match self.shell {
            Some(_) => json_text(self.shell_word()),
            None => JsonValue::Null,
        };
        add_member(&mut members, "shell", shell);
        add_member(&mut members, "decision", json_text(self.decision()));
        add_member(&mut members, "message", json_optional_text(&self.denial));
        add_member(&mut members, "executed", JsonValue::Bool(false));
        add_member(&mut members, "policy_scope", json_text("contextmink_only"));
        add_member(&mut members, "policy_root", json_optional_text(&self.policy_root));
        add_member(&mut members, "configured_rules", rules);
        add_member(&mut members, "override_applied", JsonValue::Bool(false));
        add_member(&mut members, "scope_note", json_text(SCOPE_NOTE));
        let value = json_object(members);
        let ghost rules_model = self.value()->Object_0[8].1;
        assert(rules@->Object_0 =~= rules_model->Object_0);
        assert(value@->Object_0 =~= self.value()->Object_0);
        value
    }

    /// The report as lines.
    pub open spec fn text_lines(self) -> Seq<Seq<char>> {
        seq![
            "decision="@ + self.outcome() + " input_kind="@ + self.kind() + " shell="@
                + self.shell_name() + " executed=false"@,
        ] + (match self.denial {
            Some(message) => seq![message@],
            None => Seq::empty(),
        }) + seq![SCOPE_NOTE@]
    }

    /// The report as lines.
    pub fn lines(&self) -> (lines: Vec<String>)
        ensures
            strings::texts(lines@) == self.text_lines(),
    {
        let mut lines: Vec<String> = Vec::new();
        assert(strings::texts(lines@) =~= Seq::empty());
        push_text(
            &mut lines,
            "decision=".to_owned().concat(self.decision()).concat(" input_kind=").concat(
                self.input_kind(),
            ).concat(" shell=").concat(self.shell_word()).concat(" executed=false"),
        );
        match &self.denial {
            Some(message) => {
                push_text(&mut lines, message.clone());
            },
            None => {},
        }
        push_text(&mut lines, SCOPE_NOTE.to_owned());
        assert(strings::texts(lines@) =~= self.text_lines());
        lines
    }
}

pub open spec fn optional(text: Option<Seq<char>>) -> Json {
    match text {
        Some(text) => Json::Text(text),
        None => Json::Null,
    }
}

/// A check of a command text says what the hook says of an event with that command:
/// the two cannot disagree.
pub proof fn check_agrees_with_the_hook(
    command: Seq<char>,
    dialect: ShellDialect,
    verdict: hook_guard::HookVerdict,
    event: Json,
    field: Seq<char>,
    config: DestructiveGuardConfig,
)
    requires
        hook_guard::field_value(event, field) == Some(Json::Text(command)),
        hook_guard::judges(verdict, event, field, config, false, None, dialect),
    ensures
        (verdict is Deny) == destructive_guard::denied_argv(
            judged_argv(Some(command), Some(dialect), Seq::empty()),
            config.rules(true),
        ) is Some,
{
}

} // verus!
