use contextmink::capture_report::{capture_request, CaptureLimits};
use contextmink::destructive_guard::{evaluate_argv, DenyDecision, DestructiveGuardConfig};
use contextmink::guard_check::{check_guard, CheckFault};
use contextmink::hook_guard::{
    evaluate_hook_payload, evaluate_hook_payload_for_root, evaluate_hook_payload_with_shell,
    parse_command_field, HookVerdict,
};
use contextmink::json::{json_object, json_text};
use contextmink::shell_parse::{parse_shell_payload, ShellDialect};

const FIELD: &str = "tool_input.command";

fn protected_config() -> DestructiveGuardConfig {
    DestructiveGuardConfig {
        recursive_delete_fragments: vec![".state-cache".to_owned(), "generated-reports".to_owned()],
        delete_fragments: vec!["index.sqlite".to_owned(), "analysis.gpr".to_owned()],
    }
}

fn payload(command: &str) -> String {
    json_object(vec![
        ("tool_name".to_owned(), json_text("Bash")),
        (
            "tool_input".to_owned(),
            json_object(vec![("command".to_owned(), json_text(command))]),
        ),
    ])
    .to_compact()
}

fn payload_with_cwd(command: &str, cwd: &str) -> String {
    json_object(vec![
        ("cwd".to_owned(), json_text(cwd)),
        ("tool_name".to_owned(), json_text("Bash")),
        (
            "tool_input".to_owned(),
            json_object(vec![("command".to_owned(), json_text(command))]),
        ),
    ])
    .to_compact()
}

fn verdict(command: &str) -> HookVerdict {
    evaluate_hook_payload(&payload(command), FIELD, &protected_config(), false)
}

fn assert_denied(command: &str, expect_in_message: &str) {
    match verdict(command) {
        HookVerdict::Deny { message } => assert!(
            message.contains(expect_in_message),
            "deny message for {command:?} missing {expect_in_message:?}: {message}"
        ),
        other => panic!("expected deny for {command:?}, got {other:?}"),
    }
}

fn assert_allowed(command: &str) {
    match verdict(command) {
        HookVerdict::Allow => {}
        other => panic!("expected allow for {command:?}, got {other:?}"),
    }
}

#[test]
fn git_clean_spellings_are_denied() {
    assert_denied("git clean -fdX", "git clean");
    assert_denied("cd minkwrath && git clean -fd", "git clean");
    assert_denied("git -C ghidramink clean -f", "git clean");
    assert_denied("git.exe clean -n", "git clean");
    assert_denied(
        "bash -lc 'cd /f/AI/wow_modernclient && git clean -fdX'",
        "git clean",
    );
}

#[test]
fn recursive_deletion_of_protected_fragments_is_denied() {
    assert_denied("rm -r .state-cache", "protected path fragment");
    assert_denied(
        "Remove-Item -Recurse -Force generated-reports/exports",
        "protected path fragment",
    );
}

#[test]
fn direct_deletion_of_protected_files_is_denied() {
    assert_denied("rm -f .state-cache/index.sqlite", "protected path fragment");
    assert_denied("del analysis.gpr", "protected path fragment");
}

#[test]
fn benign_commands_are_allowed() {
    assert_allowed("git status --short");
    assert_allowed("git status --short && echo '(clean = history intact)'");
    assert_allowed("git status && make clean");
    assert_allowed("git commit -m 'fix git clean parser'");
    assert_allowed("python -c 'payload = \"git clean -fdX\"'");
    assert_allowed("echo .state-cache && rm -rf scratch-only");
    assert_allowed("cargo test --workspace");
    assert_allowed("rm -f scratch_probe.rs");
    assert_allowed("contextmink sqlite .state-cache/index.sqlite --sql-file q.sql");
    assert_allowed("cp .state-cache/index.sqlite /e/backups/index.sqlite");
}

#[test]
fn powershell_backtick_escapes_are_data_not_command_substitutions() {
    let command = r#"git commit -m "fix `git clean` parser""#;
    let powershell = evaluate_hook_payload_with_shell(
        &payload(command),
        FIELD,
        &protected_config(),
        false,
        ShellDialect::Powershell,
    );
    assert_eq!(powershell, HookVerdict::Allow);

    let posix = evaluate_hook_payload_with_shell(
        &payload(command),
        FIELD,
        &protected_config(),
        false,
        ShellDialect::Posix,
    );
    assert!(matches!(posix, HookVerdict::Deny { .. }));

    let destructive = evaluate_hook_payload_with_shell(
        &payload("& git clean -fdX"),
        FIELD,
        &protected_config(),
        false,
        ShellDialect::Powershell,
    );
    assert!(matches!(destructive, HookVerdict::Deny { .. }));
}

#[test]
fn empty_command_is_allowed() {
    assert_allowed("");
}

#[test]
fn override_downgrades_deny_to_warning() {
    let verdict =
        evaluate_hook_payload(&payload("git clean -fdX"), FIELD, &protected_config(), true);
    match verdict {
        HookVerdict::AllowWithOverride { message } => {
            assert!(message.contains("git clean"), "message: {message}");
        }
        other => panic!("expected override allow, got {other:?}"),
    }
}

#[test]
fn unparseable_payloads_allow_with_note() {
    let config = protected_config();
    for (raw, expect) in [
        ("", "empty hook payload"),
        ("   \n", "empty hook payload"),
        ("{not json", "not valid JSON"),
        (
            r#"{"tool_name": "Bash"}"#,
            "has no `tool_input.command` field",
        ),
        (r#"{"tool_input": {"command": 42}}"#, "is not a string"),
    ] {
        match evaluate_hook_payload(raw, FIELD, &config, false) {
            HookVerdict::AllowUnparsed { note } => assert!(
                note.contains(expect),
                "note for {raw:?} missing {expect:?}: {note}"
            ),
            other => panic!("expected allow-unparsed for {raw:?}, got {other:?}"),
        }
    }
}

#[test]
fn custom_command_field_path_is_honored() {
    let raw = r#"{"cmd": "git clean -fd"}"#;
    match evaluate_hook_payload(raw, "cmd", &protected_config(), false) {
        HookVerdict::Deny { message } => assert!(message.contains("git clean")),
        other => panic!("expected deny via custom field, got {other:?}"),
    }
}

#[test]
fn expected_root_prevents_a_foreign_checkout_policy_from_applying() {
    let config = protected_config();
    let foreign = evaluate_hook_payload_for_root(
        &payload_with_cwd("git clean -fdX", "D:/work/other-repo"),
        FIELD,
        &config,
        false,
        Some("D:/work/expected-repo"),
        ShellDialect::Posix,
    );
    match foreign {
        HookVerdict::AllowUnparsed { note } => {
            assert!(note.contains("outside policy root"), "note: {note}");
        }
        other => panic!("expected foreign policy to allow with a note, got {other:?}"),
    }

    let local = evaluate_hook_payload_for_root(
        &payload_with_cwd("git clean -fdX", "D:/work/expected-repo/subdir"),
        FIELD,
        &config,
        false,
        Some("D:/work/expected-repo"),
        ShellDialect::Posix,
    );
    assert!(matches!(local, HookVerdict::Deny { .. }));
}

fn texts(list: &[&str]) -> Vec<String> {
    list.iter().map(|text| text.to_string()).collect()
}

/// The guard refuses the argv before anything is started.
#[test]
fn run_blocks_git_clean_argv_before_spawn() {
    let argv = texts(&["git", "clean", "-fdX", "-e", "keep.sqlite"]);
    match evaluate_argv(&argv, &protected_config(), false) {
        DenyDecision::Deny { message } => assert!(message.contains("git clean"), "{message}"),
        other => panic!("{other:?}"),
    }
    let limits = CaptureLimits { show_lines: 1, show_bytes_per_stream: 1, show_line_chars: 1 };
    let refused = capture_request(limits, &argv, &[], &protected_config(), false)
        .unwrap_err()
        .message();
    assert!(refused.contains("destructive command blocked"), "message: {refused}");
    assert!(refused.contains("git clean"), "message: {refused}");
}

#[test]
fn run_blocks_destructive_argv_from_argfile_form() {
    let (_, argv) = contextmink::bridge::assemble_argv(
        "--argfile",
        &texts(&["args.txt"]),
        Some("bash\n-lc\ncd generated_output && git clean -fdX\n"),
    )
    .unwrap();
    match evaluate_argv(&argv, &protected_config(), false) {
        DenyDecision::Deny { message } => assert!(message.contains("git clean"), "{message}"),
        other => panic!("{other:?}"),
    }
}

#[test]
fn run_allows_command_words_as_script_arguments() {
    let argv = texts(&["/tmp/deny-script/probe.sh", "git", "clean", "-fdX"]);
    assert_eq!(
        evaluate_argv(&argv, &protected_config(), false),
        DenyDecision::Allow
    );
}

#[test]
fn run_keeps_protected_path_words_local_to_the_script_command() {
    let config = DestructiveGuardConfig {
        recursive_delete_fragments: texts(&["protected_cache"]),
        delete_fragments: Vec::new(),
    };
    let argv = texts(&["/tmp/deny-config-script/probe.sh", "rm", "-rf", "protected_cache"]);
    assert_eq!(evaluate_argv(&argv, &config, false), DenyDecision::Allow);
    assert!(matches!(
        evaluate_argv(&texts(&["rm", "-rf", "protected_cache"]), &config, false),
        DenyDecision::Deny { .. }
    ));
}

#[test]
fn hidden_deletions_are_found() {
    assert_denied("sudo -u root git clean -fd", "git clean");
    assert_denied("env A=1 git clean -fd", "git clean");
    assert_denied("echo $(git clean -fd)", "git clean");
    assert_denied("xargs git clean -fd", "git clean");
    assert_denied("rm -r .state-{cache,other}", "protected path fragment");
    assert_denied("find . -name x -exec rm -r .state-cache {} +", "protected path fragment");
    assert_denied("find generated-reports -delete", "protected path fragment");
    assert_denied("git -c alias.x='!git clean -fd' x", "git clean");
    assert_denied(
        "powershell -EncodedCommand AAAA",
        "encoded PowerShell commands are blocked",
    );
    assert_allowed("cat <<'EOF'\ngit clean -fdX\nEOF\n");
}

#[test]
fn a_check_reports_the_decision_and_runs_nothing() {
    let config = protected_config();
    let check = check_guard(Some("git clean -fd"), None, &[], &config, Some("/ws".to_owned()))
        .unwrap();
    let value = check.to_json();
    let text = |key: &str| value.get(key).unwrap().to_compact();
    assert_eq!(text("schema"), "\"contextmink.guard_check.v1\"");
    assert_eq!(text("input_kind"), "\"shell_command\"");
    assert_eq!(text("shell"), "\"posix\"");
    assert_eq!(text("decision"), "\"deny\"");
    assert_eq!(text("executed"), "false");
    assert_eq!(text("policy_root"), "\"/ws\"");
    assert!(check.lines()[0].starts_with("decision=deny input_kind=shell_command shell=posix"));
    assert_eq!(check.lines().len(), 3);

    let check = check_guard(None, None, &texts(&["git", "status"]), &config, None).unwrap();
    assert_eq!(
        check.lines()[0],
        "decision=allow input_kind=argv shell=argv executed=false"
    );
    assert_eq!(check.to_json().get("message").unwrap().to_compact(), "null");
}

#[test]
fn a_check_wants_exactly_one_input() {
    let config = protected_config();
    match check_guard(None, None, &texts(&["--json"]), &config, None) {
        Err(CheckFault::Misplaced { first }) => assert_eq!(first, "--json"),
        other => panic!("{other:?}"),
    }
    assert!(matches!(
        check_guard(Some("ls"), None, &texts(&["ls"]), &config, None),
        Err(CheckFault::BothInputs)
    ));
    let none = check_guard(None, None, &[], &config, None).unwrap_err();
    assert_eq!(none.message(), "guard-check requires --command or argv");
}

#[test]
fn command_fields_on_the_command_line_are_pointers() {
    assert!(parse_command_field("/tool_input/command").is_ok());
    assert!(parse_command_field("tool_input.command").is_err());
    assert!(parse_command_field("/a~2b").is_err());
}

#[test]
fn joined_payloads_are_the_commands_of_both() {
    for dialect in [ShellDialect::Posix, ShellDialect::Powershell, ShellDialect::Cmd] {
        for separator in [";", "\n", "|", "&&"] {
            for (a, b) in [("ls -l a.txt", "cd ../x_y"), ("", "pwd"), ("  ", " "), ("a", "")] {
                let joined = parse_shell_payload(&format!("{a}{separator}{b}"), dialect);
                let mut commands = parse_shell_payload(a, dialect).commands;
                commands.extend(parse_shell_payload(b, dialect).commands);
                assert_eq!(joined.commands, commands);
                assert!(joined.substitutions.is_empty());
            }
        }
        assert_eq!(
            parse_shell_payload("ls  -l a.txt", dialect).commands,
            vec![texts(&["ls", "-l", "a.txt"])]
        );
        assert!(parse_shell_payload("   ", dialect).commands.is_empty());
    }
}
