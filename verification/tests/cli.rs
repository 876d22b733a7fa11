use contextmink::cli::{
    misplaced_option_guidance, noncanonical_form_guidance, renamed_command_guidance,
    renamed_flag_guidance, selected_subcommand, subcommand_names, validate_global_flags, Cli,
    Command, ConfigSource,
};
use contextmink::output::ReceiptOptions;

fn argv(args: &[&str]) -> Vec<String> {
    std::iter::once("contextmink")
        .chain(args.iter().copied())
        .map(String::from)
        .collect()
}

#[test]
fn removed_flag_spellings_are_refused_with_their_replacement() {
    let cases: &[(&[&str], &str)] = &[
        (&["files", "--limit", "1"], "--show-files"),
        (&["grep", "--pattern", "x", "--limit", "1"], "--show-files"),
        (
            &["grep-terms", "--term", "x", "--lines-per-file", "1"],
            "--show-lines-per-file",
        ),
        (
            &["grep", "--pattern", "x", "--max-sample-lines", "1"],
            "--show-lines",
        ),
        (&["dirs", "--limit", "1"], "--show-dirs"),
        (&["outline", "a.rs", "--limit", "1"], "--show-items"),
        (&["outline", "a.rs", "--max-items", "1"], "--show-items"),
        (&["json-find", "a.json", "--limit", "1"], "--show-matches"),
        (
            &["json-find", "a.json", "--path-contains", "/a"],
            "--pointer-contains",
        ),
        (
            &["json-find", "a.json", "--path-regex", "a"],
            "--pointer-regex",
        ),
        (&["json-select", "a.json", "--limit", "1"], "--show-rows"),
        (
            &["json-select", "a.json", "--max-value-chars", "1"],
            "--show-value-chars",
        ),
        (&["sqlite", "a.db", "--limit", "1"], "--show-rows"),
        (
            &["sqlite-schema", "a.db", "--include-shadow"],
            "--with-shadow-tables",
        ),
        (
            &["sqlite-schema", "a.db", "--include-system"],
            "--with-system-tables",
        ),
        (
            &["sqlite-schema", "a.db", "--max-columns", "1"],
            "--show-columns",
        ),
        (&["slice", "a.txt", "--max-lines", "1"], "--line-ceiling"),
        (
            &["slice", "a.txt", "--max-line-chars", "1"],
            "--show-line-chars",
        ),
        (&["slice", "a.txt", "--start", "2"], "--range START:END"),
        (&["slice", "a.txt", "--lines", "2"], "--range START:END"),
    ];
    for (args, replacement) in cases {
        let guidance = noncanonical_form_guidance(&argv(args))
            .unwrap_or_else(|| panic!("no replacement guidance for {args:?}"));
        assert!(guidance.contains(replacement), "{args:?}: {guidance}");
    }
    assert!(renamed_flag_guidance("capture", "--max-lines")
        .is_some_and(|guidance| guidance.contains("--show-lines")));
    assert!(renamed_flag_guidance("capture", "--max-bytes=9")
        .is_some_and(|guidance| guidance.contains("--show-bytes-per-stream")));
}

#[test]
fn the_subcommand_is_found_behind_the_options() {
    assert_eq!(
        selected_subcommand(&argv(&["--json", "guard-hook"])).as_deref(),
        Some("guard-hook")
    );
    assert_eq!(
        selected_subcommand(&argv(&["--config", "files", "dirs"])).as_deref(),
        Some("dirs")
    );
    assert_eq!(selected_subcommand(&argv(&["--json"])), None);
    for name in subcommand_names() {
        assert_eq!(selected_subcommand(&argv(&[name])).as_deref(), Some(name));
    }
}

#[test]
fn current_forms_get_no_guidance() {
    for args in [
        &["files", "--show-files", "1"][..],
        &["grep", "--pattern", "needle", "src"][..],
        &["slice", "a.txt", "--range", "2:4"][..],
    ] {
        assert_eq!(noncanonical_form_guidance(&argv(args)), None, "{args:?}");
    }
    assert!(renamed_command_guidance(&argv(&["--json", "hook-guard"])).is_some());
    assert_eq!(misplaced_option_guidance(&argv(&["files"]), "files"), None);
}

#[test]
fn options_of_the_subcommand_are_taken_up() {
    let cli = Cli {
        json: false,
        fail_if_truncated: false,
        require_complete_scope: true,
        config: None,
        no_config: false,
        command: Command::Files {
            receipt_options: ReceiptOptions {
                fail_if_truncated: true,
                require_complete_scope: false,
            },
            config_source: ConfigSource { config: Some("/a".to_owned()), no_config: false },
        },
    };
    let resolved = cli.resolve_command_options();
    assert!(resolved.fail_if_truncated);
    assert!(!resolved.require_complete_scope);
    assert_eq!(resolved.config.as_deref(), Some("/a"));
}

#[test]
fn the_hook_has_no_json_output() {
    let hook = |json: bool| Cli {
        json,
        fail_if_truncated: false,
        require_complete_scope: false,
        config: None,
        no_config: true,
        command: Command::GuardHook {
            config_source: ConfigSource { config: None, no_config: true },
        },
    };
    assert!(validate_global_flags(&hook(false)).is_ok());
    assert!(validate_global_flags(&hook(true)).unwrap_err().contains("--json does not apply"));
    let mut other = hook(true);
    other.command = Command::SetupUser;
    assert!(validate_global_flags(&other).is_ok());
}
