use contextmink::base64::encode_base64;
use contextmink::bridge::{
    assemble_argv, decode_base64, reader_exceeds_line_limit, sed_window_span, DUMP_WARN_LINES,
};
use contextmink::hex::hex_text;
use contextmink::paths::Host;
use contextmink::process_boundary::{
    hex_encode_arg, msys2_arg_conversion_exclusions, resolve_program, resolve_project_root,
    windows_bash_candidates, Lineage,
};

fn texts(list: &[&str]) -> Vec<String> {
    list.iter().map(|text| text.to_string()).collect()
}

fn assemble_argv_b64(argv: &[&str]) -> Result<Vec<String>, String> {
    let token = encode_base64(argv.join("\0").as_bytes());
    assemble_argv("--argv-b64", &[token], None).map(|(_, argv)| argv)
}

fn lineage(directories: &[&str], policy: &[bool], repository: &[bool]) -> Lineage {
    Lineage {
        directories: texts(directories),
        policy: policy.to_vec(),
        repository: repository.to_vec(),
    }
}

#[test]
fn root_resolution_prefers_policy_root_over_nested_vendored_git() {
    // The policy file is at the workspace; a checkout with its own .git is below it.
    let install = lineage(
        &[
            "/policy/tools/contextmink/target/release",
            "/policy/tools/contextmink/target",
            "/policy/tools/contextmink",
            "/policy/tools",
            "/policy",
        ],
        &[false, false, false, false, true],
        &[false, false, true, false, false],
    );
    let caller = lineage(&["/policy"], &[true], &[false]);
    assert_eq!(resolve_project_root(None, "/policy", &caller, &install), "/policy");

    // Without a policy file the nearest .git wins.
    let install = lineage(
        &["/standalone/target/release", "/standalone/target", "/standalone"],
        &[false, false, false],
        &[false, false, true],
    );
    let caller = lineage(&["/standalone"], &[false], &[true]);
    assert_eq!(
        resolve_project_root(None, "/standalone", &caller, &install),
        "/standalone"
    );

    // The caller's tree comes before the place of the executable.
    let install = lineage(&["/global/bin", "/global"], &[false, false], &[false, false]);
    let caller = lineage(
        &["/global-project/crates/one", "/global-project/crates", "/global-project"],
        &[false, false, true],
        &[false, false, false],
    );
    assert_eq!(
        resolve_project_root(None, "/global-project/crates/one", &caller, &install),
        "/global-project"
    );
}

#[test]
fn base64_decodes_standard_urlsafe_and_padded_forms() {
    assert_eq!(decode_base64("aGVsbG8=").unwrap(), b"hello");
    assert_eq!(decode_base64("aGVsbG8").unwrap(), b"hello");
    assert_eq!(decode_base64("aGVs\nbG8=").unwrap(), b"hello");
    assert_eq!(
        decode_base64("-_-_").unwrap(),
        decode_base64("+/+/").unwrap()
    );
    assert_eq!(decode_base64("").unwrap(), b"");
    assert!(decode_base64("a!b").unwrap_err().contains("0x21"));

    let argv = "printf\0%s\0he said \"hi\"\0^// PART";
    let token = encode_base64(argv.as_bytes());
    assert_eq!(decode_base64(&token).unwrap(), argv.as_bytes());
}

#[test]
fn argv_b64_preserves_every_argument_including_trailing_empty() {
    assert_eq!(
        assemble_argv_b64(&["prog", "keep", ""]).unwrap(),
        vec!["prog".to_owned(), "keep".to_owned(), String::new()]
    );
    assert_eq!(
        assemble_argv_b64(&["prog", "", "mid-empty"]).unwrap(),
        vec!["prog".to_owned(), String::new(), "mid-empty".to_owned()]
    );
    assert!(assemble_argv_b64(&[]).unwrap_err().contains("no arguments"));
    assert!(assemble_argv_b64(&["", ""])
        .unwrap_err()
        .contains("no arguments"));
}

#[test]
fn windows_bash_candidates_are_git_for_windows_only() {
    for program_files in [None, Some(r"D:\Programs")] {
        let candidates = windows_bash_candidates(program_files);
        assert!(!candidates.is_empty());
        for candidate in candidates {
            let lower = candidate.to_ascii_lowercase();
            assert!(lower.contains(r"git\bin\bash.exe"), "candidate: {lower}");
            assert!(!lower.contains("cygwin"), "candidate: {lower}");
            assert!(!lower.contains("msys"), "candidate: {lower}");
        }
    }
}

#[test]
fn git_bash_boundaries_exclude_only_caller_slash_arguments() {
    let argv = vec![
        "/lua_5_1_1/_union_41".to_owned(),
        "@C:/requests/type-graph.json".to_owned(),
        "{\"type\":\"/lua_5_1_1/_union_41\"}".to_owned(),
        "plain".to_owned(),
    ];
    assert_eq!(
        msys2_arg_conversion_exclusions(&argv),
        "/lua_5_1_1/_union_41;@C:/requests/type-graph.json;{\"type\":\"/lua_5_1_1/_union_41\"}"
    );
}

#[test]
fn pathlike_programs_resolve_against_cwd_and_bare_names_keep_path_lookup() {
    let cwd = "/ws/sub";
    for host in [Host::Posix, Host::Windows] {
        assert_eq!(resolve_program("./gradlew", cwd, host), "/ws/sub/gradlew");
        assert_eq!(resolve_program("bin/tool", cwd, host), "/ws/sub/bin/tool");
        assert_eq!(resolve_program("git", cwd, host), "git");
        assert_eq!(resolve_program("/rooted/tool", cwd, host), "/rooted/tool");
    }
    assert_eq!(resolve_program("/ws/tool", cwd, Host::Posix), "/ws/tool");
    assert_eq!(
        resolve_program(r"C:\ws\tool.exe", cwd, Host::Windows),
        r"C:\ws\tool.exe"
    );
    assert_eq!(
        resolve_program(r".\gradlew", cwd, Host::Windows),
        "/ws/sub/gradlew"
    );
}

#[test]
fn dump_warning_line_probe_is_bounded_and_handles_trailing_newlines() {
    let exactly_at_limit = "line\n".repeat(DUMP_WARN_LINES);
    assert!(!reader_exceeds_line_limit(
        exactly_at_limit.as_bytes(),
        DUMP_WARN_LINES
    ));

    let unterminated_line_after_limit = format!("{}tail", "line\n".repeat(DUMP_WARN_LINES));
    assert!(reader_exceeds_line_limit(
        unterminated_line_after_limit.as_bytes(),
        DUMP_WARN_LINES
    ));

    let over_limit = "line\n".repeat(DUMP_WARN_LINES + 1);
    assert!(reader_exceeds_line_limit(
        over_limit.as_bytes(),
        DUMP_WARN_LINES
    ));
}

#[test]
fn sed_window_spans_parse_print_ranges_only() {
    assert_eq!(sed_window_span("1,460p"), Some(460));
    assert_eq!(sed_window_span("-n930,1260p"), Some(331));
    assert_eq!(sed_window_span("5,5p"), Some(1));
    assert_eq!(sed_window_span("s/a/b/"), None);
    assert_eq!(sed_window_span("1,460d"), None);
    assert_eq!(sed_window_span("460p"), None);
}

#[test]
fn argument_lines_become_arguments() {
    let (script, argv) =
        assemble_argv("--argfile", &texts(&["args.txt"]), Some("bash\n-lc\nls -l\n")).unwrap();
    assert!(!script);
    assert_eq!(argv, texts(&["bash", "-lc", "ls -l"]));
}

#[test]
fn an_argument_is_relayed_as_its_bytes_in_hex() {
    assert_eq!(hex_text(&[0x00, 0x7f, 0xff]), "007fff");
    assert_eq!(hex_encode_arg("a;\u{e9}"), "613bc3a9");
}

#[test]
fn encoding_keeps_every_byte() {
    for length in 0..70usize {
        let bytes: Vec<u8> = (0..length).map(|i| (i * 37 % 256) as u8).collect();
        assert_eq!(decode_base64(&encode_base64(&bytes)).unwrap(), bytes);
    }
    assert_eq!(encode_base64(b"hello"), "aGVsbG8");
}
