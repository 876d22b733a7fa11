use contextmink::grep::{
    admit_content_files, ContentAdmission, GrepCaps, GrepFault, GrepReport, GrepTally,
};
use contextmink::grep_scan::{scan_file, FileScan, ScanLimits};
use contextmink::paths::Host;
use contextmink::text::{
    choose_text_source, collect_terms, resolve_term_mode, strip_utf8_bom, text_from_file,
    trim_trailing_line_endings, TermMode, TextMatcher, TextSource,
};

fn texts(list: &[&str]) -> Vec<String> {
    list.iter().map(|text| text.to_string()).collect()
}

fn limits() -> ScanLimits {
    ScanLimits { lines_per_file: 1, context: 1, max_line_chars: 80, max_file_bytes: 1000 }
}

fn caps() -> GrepCaps {
    GrepCaps {
        max_matching_files: 10,
        show_files: 5,
        show_lines_per_file: 1,
        context: 0,
        show_lines: 5,
        show_line_chars: 80,
        max_content_files: 10,
        max_file_bytes: 1000,
        max_content_bytes: None,
    }
}

fn scan(matcher: &TextMatcher, path: &str, lines: &[&str]) -> FileScan {
    scan_file(matcher, path, 10, Some(&texts(lines)), limits())
}

#[test]
fn lines_are_matched_and_sampled_with_their_context() {
    let matcher = TextMatcher::new("needle", true, false).unwrap();
    match scan(&matcher, "a.txt", &["one", "needle", "two", "three", "needle again"]) {
        FileScan::Matched { matching_lines, samples, sample_matching_lines_omitted, .. } => {
            assert_eq!(matching_lines, 2);
            assert_eq!(sample_matching_lines_omitted, 1);
            let shown: Vec<(usize, bool)> =
                samples.iter().map(|sample| (sample.line, sample.is_match)).collect();
            assert_eq!(shown, vec![(1, false), (2, true), (3, false)]);
        }
        other => panic!("{other:?}"),
    }
    assert!(matches!(scan(&matcher, "a.txt", &["one"]), FileScan::NoMatch));
    assert!(matches!(
        scan_file(&matcher, "a.bin", 10, None, limits()),
        FileScan::SkippedBinary { .. }
    ));
    assert!(matches!(
        scan_file(&matcher, "a.log", 1001, None, limits()),
        FileScan::SkippedLarge { bytes: 1001, .. }
    ));
}

#[test]
fn patterns_terms_and_case() {
    let regex = TextMatcher::new("n.+le", false, true).unwrap();
    assert!(regex.is_match("a NEEDLE"));
    assert_eq!(regex.count_matches("needle"), 1);
    assert!(TextMatcher::new("(", false, false).is_err());
    let literal = TextMatcher::new("(", true, false).unwrap();
    assert!(literal.is_match("f(x)"));
    assert_eq!(literal.count_matching_lines(&texts(&["(", "x", "(("])), 2);
    let folded = TextMatcher::new("STRASSE", true, true).unwrap();
    assert!(folded.is_match("die strasse"));
    let all = TextMatcher::terms(texts(&["a", "b"]), TermMode::All, false);
    assert!(all.is_match("b and a"));
    assert!(!all.is_match("b"));
    let any = TextMatcher::terms(texts(&["a", "b"]), TermMode::Any, false);
    assert!(any.is_match("b"));
    assert_ne!(all.label(), any.label());
}

#[test]
fn a_search_says_what_it_covered() {
    let matcher = TextMatcher::new("needle", true, false).unwrap();
    let mut tally = GrepTally::new();
    assert!(!tally.push(scan(&matcher, "a.txt", &["needle"]), 10));
    assert!(!tally.push(scan_file(&matcher, "b.log", 5000, None, limits()), 10));
    let report = GrepReport {
        command: "grep",
        label: matcher.label(),
        quiet: false,
        caps: caps(),
        candidate_files_total: 2,
        candidate_files_selected: 2,
        candidate_files_capped: false,
        admission: ContentAdmission { files: 2, bytes_admitted: None, capped: false },
        nested_repos_entered: Vec::new(),
        tally,
        host: Host::Posix,
    };
    let receipt = report.receipt(Some("demo"), true);
    assert_eq!((receipt.result.total, receipt.result.shown), (1, 1));
    // A file that was too large was not examined.
    assert!(receipt.result.total_is_lower_bound);
    assert!(!receipt.scope_complete());
    assert!(report.lines().iter().any(|line| line.contains("a.txt")));
}

#[test]
fn a_search_stops_at_enough_matching_files() {
    let matcher = TextMatcher::new("needle", true, false).unwrap();
    let mut tally = GrepTally::new();
    assert!(tally.push(scan(&matcher, "a.txt", &["needle"]), 1));
}

#[test]
fn content_is_admitted_to_a_limit() {
    let whole = admit_content_files(&[10, 20, 30], None).unwrap();
    assert_eq!(whole.files, 3);
    assert!(!whole.capped);
    let part = admit_content_files(&[10, 20, 30], Some(30)).unwrap();
    assert_eq!(part.files, 2);
    assert!(part.capped);
    assert_eq!(part.bytes_admitted, Some(30));
    assert!(matches!(
        admit_content_files(&[u64::MAX, 1], Some(u64::MAX)),
        Err(GrepFault::BytesOverflow)
    ));
}

#[test]
fn caps_of_zero_are_refused() {
    assert!(caps().validate().is_ok());
    let mut bad = caps();
    bad.max_matching_files = 0;
    assert!(matches!(bad.validate(), Err(GrepFault::ZeroMatchingFiles)));
    let mut bad = caps();
    bad.max_content_files = 0;
    assert!(matches!(bad.validate(), Err(GrepFault::ZeroContentFiles)));
    let mut bad = caps();
    bad.max_content_bytes = Some(0);
    assert!(matches!(bad.validate(), Err(GrepFault::ZeroContentBytes)));
    assert!(GrepFault::ZeroMatchingFiles.message("grep").starts_with("grep "));
}

#[test]
fn terms_come_from_arguments_and_files() {
    assert_eq!(
        collect_terms(&texts(&["a"]), &texts(&["\u{feff}b\r\n\nc\n"])).unwrap(),
        texts(&["a", "b", "c"])
    );
    assert!(collect_terms(&[], &[]).is_err());
    assert_eq!(resolve_term_mode(TermMode::All, true, false), Ok(TermMode::Any));
    assert!(resolve_term_mode(TermMode::All, true, true).is_err());
    assert_eq!(choose_text_source("grep --pattern", true, false), Ok(TextSource::Inline));
    assert_eq!(choose_text_source("grep --pattern", false, true), Ok(TextSource::File));
    assert!(choose_text_source("grep --pattern", true, true).is_err());
    assert!(choose_text_source("grep --pattern", false, false).is_err());
    assert_eq!(strip_utf8_bom("\u{feff}a"), "a");
    assert_eq!(trim_trailing_line_endings("a\r\n\n"), "a");
    assert_eq!(text_from_file("\u{feff}a\n", true), "a");
    assert_eq!(text_from_file("\u{feff}a\n", false), "a\n");
}
