use contextmink::config::{
    builtin_excludes, choose_config, config_key_at_offset, config_parse_error,
    load_context_config, selected_config_policy_root, validate_profile, ConfigFault,
    ContextConfig, ContextminkConfig, ProfileFault,
};
use contextmink::dirs::{count_directories, validate_dirs, DirsFault, DirsReport};
use contextmink::files::{
    build_optional_globset, collect_files, explicit_excluded_roots, file_is_included, is_excluded,
    normalize_extensions, normalize_path_terms, probe_directory, probes_ignored_repos,
    visit_directory, CollectedFiles, DirectoryVisit, FoundFile, PolicyMapper, ProbeVisit, ScanRoot, Selection,
    NESTED_REPO_MAX_RECURSION,
};
use contextmink::files_report::{retained_files, FilesReport};
use contextmink::paths::{
    components_of, display_path, file_extension, join_path, normalize_path, paths_or_current_dir,
    Host,
};

fn texts(list: &[&str]) -> Vec<String> {
    list.iter().map(|text| text.to_string()).collect()
}

fn config(root: &str, patterns: &[&str]) -> ContextConfig {
    let raw = ContextminkConfig {
        profile: Some("files-tests".to_owned()),
        exclude_globs: Some(texts(patterns)),
        destructive_guard_recursive_delete_fragments: None,
        destructive_guard_delete_fragments: None,
    };
    match load_context_config(raw, Some(root.to_owned())) {
        Ok(config) => config,
        Err(fault) => panic!("{}", fault.message()),
    }
}

fn directory(path: &str) -> ScanRoot {
    ScanRoot {
        path: path.to_owned(),
        is_file: false,
        is_dir: true,
        canonical: Some(path.to_owned()),
    }
}

fn selection(globs: &[&str]) -> Selection {
    Selection {
        globs: build_optional_globset(&texts(globs)).unwrap(),
        path_terms: Vec::new(),
        extensions: Vec::new(),
        with_excluded: false,
    }
}

fn found(path: &str, index: u64) -> FoundFile {
    FoundFile { path: path.to_owned(), device: 1, index }
}

/// The files below a root that are collected, of those that a walk finds.
fn collect(
    root: &str,
    config: &ContextConfig,
    globs: &[&str],
    walked: &[&str],
    nested: &[&str],
) -> CollectedFiles {
    let roots = [directory(root)];
    let explicit = explicit_excluded_roots(&roots, config, false, Host::Posix);
    let mapper = PolicyMapper::for_root(&roots[0], &config.policy_root, Host::Posix);
    let selection = selection(globs);
    let kept: Vec<FoundFile> = walked
        .iter()
        .enumerate()
        .filter(|(_, path)| file_is_included(path, &mapper, &selection, config, &explicit))
        .map(|(index, path)| found(path, index as u64))
        .collect();
    collect_files(&kept, usize::MAX, &texts(nested), Host::Posix)
}

#[test]
fn paths_default_to_workspace_root() {
    assert_eq!(paths_or_current_dir(&[]), texts(&["."]));
    assert_eq!(
        paths_or_current_dir(&texts(&["src", "tests"])),
        texts(&["src", "tests"])
    );
}

#[test]
fn include_globs_use_scan_root_relative_paths_for_absolute_roots() {
    let collected = collect(
        "/work/absolute-glob",
        &config("/work/absolute-glob", &[]),
        &["src/**/*.rs"],
        &["/work/absolute-glob/src/nested/lib.rs", "/work/absolute-glob/root.rs"],
        &[],
    );
    assert_eq!(collected.total_seen, 1);
    assert_eq!(collected.files, texts(&["/work/absolute-glob/src/nested/lib.rs"]));
}

#[test]
fn nested_repo_include_globs_remain_relative_to_the_explicit_scan_root() {
    let root = "/work/nested-repo-glob-root";
    assert!(probes_ignored_repos(false, false, 0));
    assert_eq!(
        probe_directory(false, "nested", false, true, 1),
        ProbeVisit::Repository
    );
    let collected = collect(
        root,
        &config(root, &[]),
        &["nested/src/**/*.rs"],
        &["/work/nested-repo-glob-root/nested/src/lib.rs"],
        &["/work/nested-repo-glob-root/nested"],
    );
    assert_eq!(collected.total_seen, 1);
    assert_eq!(collected.files, texts(&["/work/nested-repo-glob-root/nested/src/lib.rs"]));
    assert_eq!(
        collected.nested_repos_entered,
        texts(&["/work/nested-repo-glob-root/nested"])
    );
}

#[test]
fn tracked_submodule_style_repo_is_disclosed_and_skipped() {
    assert_eq!(visit_directory(1, true, false), DirectoryVisit::EnterRepository);
    assert_eq!(visit_directory(1, true, true), DirectoryVisit::Skip);
    let entered = collect_files(
        &[found("/r/nested/src/lib.rs", 1)],
        usize::MAX,
        &texts(&["/r/nested"]),
        Host::Posix,
    );
    assert_eq!(entered.files, texts(&["/r/nested/src/lib.rs"]));
    assert_eq!(entered.total_seen, 1);
    assert_eq!(entered.nested_repos_entered, texts(&["/r/nested"]));
    let skipped = collect_files(&[], usize::MAX, &[], Host::Posix);
    assert_eq!(skipped.total_seen, 0);
    assert!(skipped.files.is_empty());
    assert!(skipped.nested_repos_entered.is_empty());
}

#[test]
fn explicit_repo_root_is_not_treated_as_its_own_nested_boundary() {
    assert_eq!(visit_directory(0, true, true), DirectoryVisit::Enter);
    let collected = collect(
        "/work/explicit-repo-root/nested",
        &config("/work/explicit-repo-root", &[]),
        &[],
        &["/work/explicit-repo-root/nested/README.md"],
        &[],
    );
    assert_eq!(collected.files, texts(&["/work/explicit-repo-root/nested/README.md"]));
    assert_eq!(collected.total_seen, 1);
    assert!(collected.nested_repos_entered.is_empty());
}

#[test]
fn explicit_excluded_root_reapplies_nested_exclusions() {
    let config = config(
        "/work/boundary",
        &["artifacts/**", "node_modules/**", "**/node_modules/**"],
    );
    let collected = collect(
        "/work/boundary/artifacts",
        &config,
        &[],
        &[
            "/work/boundary/artifacts/finding.md",
            "/work/boundary/artifacts/node_modules/dependency/generated.js",
        ],
        &[],
    );
    assert_eq!(collected.total_seen, 1);
    assert_eq!(collected.files, texts(&["/work/boundary/artifacts/finding.md"]));
}

#[test]
fn overlapping_roots_keep_exact_deduplicated_totals() {
    let collected = collect_files(
        &[found("/r/src/lib.rs", 7), found("/r/src/lib.rs", 7)],
        usize::MAX,
        &[],
        Host::Posix,
    );
    assert_eq!(collected.total_seen, 1);
    assert_eq!(collected.files, texts(&["/r/src/lib.rs"]));
}

#[test]
fn physical_file_aliases_keep_one_deterministic_path() {
    let collected = collect_files(
        &[found("/r/b.json", 3), found("/r/a.json", 3)],
        usize::MAX,
        &[],
        Host::Posix,
    );
    assert_eq!(collected.total_seen, 1);
    assert_eq!(collected.files, texts(&["/r/a.json"]));
}

#[test]
fn posix_backslashes_remain_filename_characters() {
    assert_eq!(
        display_path(r"queue/name\part.jsonl", Host::Posix),
        r"queue/name\part.jsonl"
    );
}

#[test]
fn windows_backslashes_render_as_path_separators() {
    assert_eq!(
        display_path(r"queue\work.jsonl", Host::Windows),
        "queue/work.jsonl"
    );
}

#[test]
fn the_order_of_a_walk_makes_no_difference() {
    let forth = [found("/r/a", 1), found("/r/b", 2), found("/r/c", 3)];
    let back = [found("/r/c", 3), found("/r/b", 2), found("/r/a", 1)];
    let one = collect_files(&forth, 2, &[], Host::Posix);
    let other = collect_files(&back, 2, &[], Host::Posix);
    assert_eq!(one.files, other.files);
    assert_eq!(one.files, texts(&["/r/a", "/r/b"]));
    assert_eq!(one.total_seen, 3);
    assert!(one.selection_capped);
}

#[test]
fn built_in_exclusions_hold_in_every_root() {
    let patterns = builtin_excludes();
    assert!(patterns.iter().any(|pattern| pattern.contains("node_modules")));
    let config = config("/elsewhere", &["generated/**"]);
    let root = directory("/work");
    let mapper = PolicyMapper::for_root(&root, &config.policy_root, Host::Posix);
    assert!(is_excluded(&mapper, "/work/node_modules", true, &config, &[]));
    // The repository's own exclusions hold below its policy root alone.
    assert!(!is_excluded(&mapper, "/work/generated/a.txt", false, &config, &[]));
    let inside = config_mapper("/elsewhere");
    assert!(is_excluded(&inside, "/elsewhere/generated/a.txt", false, &config, &[]));
}

fn config_mapper(root: &str) -> PolicyMapper {
    PolicyMapper::for_root(&directory(root), &Some(root.to_owned()), Host::Posix)
}

#[test]
fn extensions_and_terms_are_normalized() {
    assert_eq!(normalize_extensions(&texts(&[".RS,toml", "md"])).len(), 3);
    assert!(normalize_path_terms(&texts(&["src"]), Host::Posix).is_ok());
    assert!(normalize_path_terms(&texts(&[""]), Host::Posix).is_err());
    assert_eq!(file_extension("a/b.tar.gz", Host::Posix).as_deref(), Some("gz"));
    assert_eq!(file_extension("a/.bashrc", Host::Posix), None);
    assert_eq!(join_path("/a", "b", Host::Posix), "/a/b");
    assert_eq!(components_of("/a//b/./c", Host::Posix), texts(&["/", "a", "b", "c"]));
    assert_eq!(normalize_path(r"a\b", Host::Windows), "a/b");
}

#[test]
fn ignored_repositories_are_probed_to_a_limit() {
    assert!(!probes_ignored_repos(true, false, 0));
    assert!(!probes_ignored_repos(false, true, 0));
    assert!(!probes_ignored_repos(false, false, NESTED_REPO_MAX_RECURSION));
    assert_eq!(probe_directory(true, "a", false, true, 1), ProbeVisit::Ignore);
    assert_eq!(probe_directory(false, ".git", false, true, 1), ProbeVisit::Ignore);
    assert_eq!(probe_directory(false, "a", true, true, 1), ProbeVisit::Ignore);
    assert_eq!(probe_directory(false, "a", false, false, 1), ProbeVisit::Descend);
    assert_eq!(probe_directory(false, "a", false, false, 0), ProbeVisit::Ignore);
}

#[test]
fn a_quiet_listing_is_not_truncated() {
    let files = [found("/r/a", 1), found("/r/b", 2), found("/r/c", 3)];
    let report = |quiet: bool| FilesReport {
        collected: collect_files(&files, retained_files(1), &[], Host::Posix),
        show_files: 1,
        show_line_chars: 80,
        quiet,
        host: Host::Posix,
    };
    let loud = report(false).receipt(None, true);
    assert!(loud.output_truncated());
    assert_eq!((loud.result.total, loud.result.shown), (3, 1));
    assert!(!report(true).receipt(None, false).output_truncated());
    assert!(report(true).lines().is_empty());
    assert_eq!(report(false).lines()[0], "/r/a");
}

#[test]
fn directories_count_what_is_below_them() {
    let files = [found("/r/a/x", 1), found("/r/a/b/y", 2), found("/r/z", 3)];
    let counts = count_directories(
        &texts(&["/r/a", "/r/a/b"]),
        &files,
        100,
        Host::Posix,
    );
    assert_eq!(counts.files_counted, 3);
    assert!(!counts.capped);
    let at = |path: &str| {
        let place = counts.directories.iter().position(|entry| entry == path).unwrap();
        counts.counts[place]
    };
    assert_eq!(at("/r/a"), 2);
    assert_eq!(at("/r/a/b"), 1);
    let report = DirsReport {
        counts,
        depth: 2,
        show_dirs: 1,
        show_line_chars: 80,
        max_files_counted: 100,
        nested_repos_entered: Vec::new(),
    };
    assert!(report.receipt(None, true).output_truncated());
    assert!(!report.lines().is_empty());
}

#[test]
fn bad_directory_requests_are_refused() {
    let roots = [directory("/r")];
    assert!(validate_dirs(&roots, 1, 1).is_ok());
    assert!(matches!(validate_dirs(&roots, 0, 1), Err(DirsFault::ZeroDepth)));
    assert!(matches!(validate_dirs(&roots, 1, 0), Err(DirsFault::ZeroFilesCounted)));
    let file = [ScanRoot {
        path: "/r/a".to_owned(),
        is_file: true,
        is_dir: false,
        canonical: None,
    }];
    assert!(matches!(validate_dirs(&file, 1, 1), Err(DirsFault::File { .. })));
}

#[test]
fn configuration_is_chosen_and_checked() {
    assert_eq!(choose_config(true, None, Some("/a")), None);
    assert_eq!(choose_config(false, Some("/b"), Some("/a")).as_deref(), Some("/b"));
    assert_eq!(choose_config(false, None, Some("/a")).as_deref(), Some("/a"));
    assert_eq!(
        selected_config_policy_root("/ws/.contextmink.toml", Host::Posix),
        "/ws"
    );
    assert!(validate_profile("demo").is_ok());
    assert!(matches!(validate_profile("  "), Err(ProfileFault::Empty)));
    assert!(matches!(
        validate_profile("replace-with-workspace-name"),
        Err(ProfileFault::Placeholder)
    ));
    let raw = ContextminkConfig {
        profile: None,
        exclude_globs: Some(texts(&["a{"])),
        destructive_guard_recursive_delete_fragments: None,
        destructive_guard_delete_fragments: None,
    };
    match load_context_config(raw, None) {
        Err(ConfigFault::Glob { builtin, .. }) => assert!(!builtin),
        Err(other) => panic!("{}", other.message()),
        Ok(_) => panic!("an open group was let through"),
    }
}

#[test]
fn configuration_errors_name_the_key() {
    let text = "profile = \"a\"\nprofile = \"b\"\n";
    assert_eq!(config_key_at_offset(text, 14).as_deref(), Some("profile"));
    let message = config_parse_error(text, "duplicate key", Some(14));
    assert!(message.contains("duplicate key `profile`; "), "{message}");
    let message = config_parse_error("x = 1\n", "unknown field `x`, expected y", None);
    assert!(message.contains("unknown key `x`; "), "{message}");
    assert!(message.contains("accepted top-level keys: profile"), "{message}");
}

#[test]
fn a_backslash_in_a_name_sets_no_other_condition_aside() {
    let config = config("/work", &[]);
    let mapper = config_mapper("/work");
    let mut selection = selection(&[]);
    selection.with_excluded = true;
    selection.extensions = texts(&["rs"]);
    let included =
        |path: &str, selection: &Selection| file_is_included(path, &mapper, selection, &config, &[]);
    assert!(included(r"/work/a\b.rs", &selection));
    assert!(!included(r"/work/a\b.md", &selection));
    selection.path_terms = texts(&["src"]);
    assert!(!included(r"/work/a\b.rs", &selection));
    selection.path_terms.clear();
    selection.extensions.clear();
    selection.with_excluded = false;
    assert!(!included(r"/work/a\b/.git", &selection));
}
