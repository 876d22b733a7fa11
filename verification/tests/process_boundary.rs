use contextmink::paths::Host;
use contextmink::process_boundary::{
    bash_argv_relay, file_has_shebang, find_ancestor_entry, find_ancestor_file, hex_encode_arg,
    locate_bash, prepare_command, resolve_project_root, resolve_script, ArgConversion, Lineage,
    StartRequest,
};

fn texts(list: &[&str]) -> Vec<String> {
    list.iter().map(|text| text.to_string()).collect()
}

fn start(explicit_script: bool, host: Host) -> StartRequest {
    StartRequest { explicit_script, login: false, host }
}

fn bash() -> Result<String, String> {
    Ok("/usr/bin/bash".to_owned())
}

#[test]
fn direct_mode_classifies_shebang_before_spawn() {
    let head: &[u8] = b"#!/usr/bin/env bash\nexit 0\n";
    assert!(file_has_shebang(head));
    for (host, mode) in [(Host::Windows, "shebang_script"), (Host::Posix, "native_shebang")] {
        let prepared =
            prepare_command("/r/probe", &[], Some(head), start(false, host), &bash()).unwrap();
        assert_eq!(prepared.execution_mode, mode);
    }
}

#[test]
fn non_shebang_text_stays_native_unless_script_is_explicit() {
    let head: &[u8] = b"exit 0\n";
    let direct =
        prepare_command("/r/probe", &[], Some(head), start(false, Host::Posix), &bash()).unwrap();
    assert_eq!(direct.execution_mode, "native");

    let explicit =
        prepare_command("/r/probe", &[], Some(head), start(true, Host::Posix), &bash()).unwrap();
    assert_eq!(explicit.execution_mode, "bash_script");
}

#[test]
fn explicit_script_requires_a_real_file() {
    let error = prepare_command("/r/missing", &[], None, start(true, Host::Posix), &bash())
        .err()
        .expect("missing explicit script must fail");
    assert!(error.contains("script not found"));
}

#[test]
fn bash_relay_never_places_raw_hostile_argv_on_the_startup_command_line() {
    let args = vec![
        "@scratch/args with spaces.json".to_string(),
        "semi;colon".to_string(),
        "héλ".to_string(),
        String::new(),
    ];
    let head: &[u8] = b"exit 0\n";
    let prepared =
        prepare_command("/r/probe", &args, Some(head), start(true, Host::Posix), &bash()).unwrap();
    assert!(prepared.args.iter().all(|arg| !arg.contains("@scratch")));
    assert!(prepared.args.iter().all(|arg| !arg.contains("semi;colon")));
    assert!(prepared.args.iter().all(|arg| !arg.contains("héλ")));
}

#[test]
fn bash_relay_spells_every_argument() {
    let argv = texts(&["/r/probe", "", "two words"]);
    for script in [true, false] {
        let relayed = bash_argv_relay(&argv, script);
        assert!(relayed.len() >= argv.len());
        let tail = &relayed[relayed.len() - argv.len()..];
        for (arg, spelled) in argv.iter().zip(tail) {
            assert_eq!(*spelled, hex_encode_arg(arg));
        }
    }
    assert_eq!(hex_encode_arg("ab"), "6162");
}

#[test]
fn caller_project_policy_wins_for_a_global_binary() {
    let install = Lineage {
        directories: texts(&["/global-install"]),
        policy: vec![false],
        repository: vec![false],
    };
    let caller = Lineage {
        directories: texts(&[
            "/global-project/nested/work",
            "/global-project/nested",
            "/global-project",
        ]),
        policy: vec![false, false, true],
        repository: vec![false, false, false],
    };
    assert_eq!(
        resolve_project_root(None, "/global-project/nested/work", &caller, &install),
        "/global-project"
    );
}

#[test]
fn caller_repository_wins_over_install_tree_policy() {
    let install = Lineage {
        directories: texts(&["/configured-install"]),
        policy: vec![true],
        repository: vec![false],
    };
    let caller = Lineage {
        directories: texts(&[
            "/unconfigured-project/nested/work",
            "/unconfigured-project/nested",
            "/unconfigured-project",
        ]),
        policy: vec![false, false, false],
        repository: vec![false, false, true],
    };
    assert_eq!(
        resolve_project_root(None, "/unconfigured-project/nested/work", &caller, &install),
        "/unconfigured-project"
    );
}

#[test]
fn ancestors_are_searched_from_the_inside() {
    let ancestors = texts(&["/a/b", "/a", "/"]);
    assert_eq!(
        find_ancestor_entry(&ancestors, &[false, true, true]).as_deref(),
        Some("/a")
    );
    assert_eq!(find_ancestor_entry(&ancestors, &[false, false, false]), None);
    assert_eq!(
        find_ancestor_file(&ancestors, &[false, true, false], "x.toml", Host::Posix).as_deref(),
        Some("/a/x.toml")
    );
    assert_eq!(resolve_script("run.sh", "/ws", Host::Posix), "/ws/run.sh");
}

#[test]
fn bash_is_named_found_or_refused() {
    assert_eq!(
        locate_bash(Some(("/opt/bash", true)), &[], &[], Host::Posix).unwrap(),
        "/opt/bash"
    );
    assert!(locate_bash(Some(("C:/x", false)), &[], &[], Host::Windows).is_err());
    assert_eq!(locate_bash(None, &[], &[], Host::Posix).unwrap(), "bash");
    let candidates = texts(&["C:/a/bash.exe", "C:/b/bash.exe"]);
    assert_eq!(
        locate_bash(None, &candidates, &[false, true], Host::Windows).unwrap(),
        "C:/b/bash.exe"
    );
    assert!(locate_bash(None, &candidates, &[false, false], Host::Windows).is_err());
}

#[test]
fn the_conversion_variable_is_removed_where_nothing_is_excluded() {
    let head: &[u8] = b"#!/bin/sh\n";
    let conversion = |path: &str, args: &[&str], host: Host| {
        prepare_command(path, &texts(args), Some(head), start(true, host), &bash())
            .unwrap()
            .conversion
    };
    assert!(matches!(conversion("probe", &["plain"], Host::Windows), ArgConversion::Remove));
    match conversion("probe", &["/a/b"], Host::Windows) {
        ArgConversion::Exclude { list } => assert_eq!(list, "/a/b"),
        other => panic!("{other:?}"),
    }
    assert!(matches!(conversion("probe", &["/a/b"], Host::Posix), ArgConversion::Keep));
}
