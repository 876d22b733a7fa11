use contextmink::capture::{
    capture_line_budgets, captured_stream_truncated, decode_lines, read_captured_stream,
    render_captured_stream, retained_stream_text, RawCapturedStream, StreamReader,
};
use contextmink::capture_report::{
    capture_request, finish_capture, parse_expected_exit_codes, CaptureEnd, CaptureFault,
    CaptureLimits, CapturedCommand, ChildExit, ExecutableIdentity,
};
use contextmink::destructive_guard::DestructiveGuardConfig;
use contextmink::output::{ReceiptFailure, ReceiptOptions};

fn texts(list: &[&str]) -> Vec<String> {
    list.iter().map(|text| text.to_string()).collect()
}

fn guard() -> DestructiveGuardConfig {
    DestructiveGuardConfig {
        recursive_delete_fragments: texts(&["generated"]),
        delete_fragments: Vec::new(),
    }
}

fn limits() -> CaptureLimits {
    CaptureLimits { show_lines: 8, show_bytes_per_stream: 4096, show_line_chars: 120 }
}

#[test]
fn byte_truncated_single_line_keeps_head_and_tail_fragments_visible() {
    let raw = RawCapturedStream {
        head: br#"{"rows":["#.to_vec(),
        tail: br#""tail"]}"#.to_vec(),
        tail_start: 128,
        total_bytes: 136,
        total_lines: 1,
    };

    let rendered = render_captured_stream(raw, 8, 120);

    assert!(rendered.byte_truncated);
    assert!(!rendered.display_text.is_empty());
    assert!(rendered.display_text.contains(r#"{"rows":["#));
    assert!(rendered.display_text.contains("[contextmink] ... omitted"));
    assert!(rendered.display_text.contains(r#""tail"]}"#));
    assert_eq!(rendered.shown_lines, 1);
    assert_eq!(rendered.total_lines, 1);
}

#[test]
fn byte_budget_is_the_total_retained_per_stream() {
    let raw = read_captured_stream(&vec![b'x'; 100], 10);

    assert_eq!(raw.total_bytes, 100);
    assert!(raw.head.len() + raw.tail.len() <= 10);
    let rendered = render_captured_stream(raw, 8, 120);
    assert_eq!(rendered.captured_bytes, 10);
    assert_eq!(rendered.shown_lines, 1);
    assert_eq!(rendered.total_lines, 1);
}

#[test]
fn line_budget_is_shared_across_stdout_and_stderr() {
    assert_eq!(capture_line_budgets(5, 10, 10), (2, 3));
    assert_eq!(capture_line_budgets(5, 1, 10), (1, 4));
    assert_eq!(capture_line_budgets(5, 10, 0), (5, 0));
    assert_eq!(capture_line_budgets(1, 10, 10), (0, 1));
}

#[test]
fn chunks_make_no_difference_to_what_is_retained() {
    let bytes: Vec<u8> = (0..500usize).map(|i| if i % 7 == 0 { b'\n' } else { b'a' }).collect();
    let whole = read_captured_stream(&bytes, 33);
    let mut reader = StreamReader::new(33);
    for chunk in bytes.chunks(11) {
        reader.push(chunk);
    }
    let pieces = reader.finish();
    assert_eq!(whole.head, pieces.head);
    assert_eq!(whole.tail, pieces.tail);
    assert_eq!(whole.tail_start, pieces.tail_start);
    assert_eq!(whole.total_bytes, pieces.total_bytes);
    assert_eq!(whole.total_lines, pieces.total_lines);
    assert_eq!(whole.head, &bytes[..whole.head.len()]);
    assert_eq!(whole.tail, &bytes[whole.tail_start..]);
}

#[test]
fn bytes_that_are_no_text_are_replaced() {
    let (lines, _) = decode_lines(b"ok\nbad\xff\n");
    assert_eq!(lines, texts(&["ok", "bad\u{fffd}"]));
}

#[test]
fn short_output_is_shown_whole() {
    let rendered = render_captured_stream(read_captured_stream(b"one\ntwo\n", 4096), 8, 120);
    assert!(!captured_stream_truncated(&rendered));
    assert_eq!(rendered.shown_lines, 2);
    assert_eq!(rendered.omitted_lines, 0);
    assert!(rendered.display_text.contains("one"));
    assert!(rendered.display_text.contains("two"));
}

#[test]
fn long_output_is_cut_in_the_middle() {
    let text: String = (0..20).map(|i| format!("line {i}\n")).collect();
    let rendered = render_captured_stream(read_captured_stream(text.as_bytes(), 4096), 4, 120);
    assert!(rendered.line_truncated);
    assert_eq!(rendered.shown_lines, 4);
    assert_eq!(rendered.omitted_lines, 16);
    assert_eq!(rendered.head_lines + rendered.tail_lines, 4);
    assert!(rendered.display_text.contains("line 0"));
    assert!(rendered.display_text.contains("line 19"));
    assert!(!rendered.display_text.contains("line 10"));
}

#[test]
fn expected_exit_codes_are_read() {
    assert_eq!(parse_expected_exit_codes(&texts(&["0,3", " 7 "])).unwrap(), vec![0, 3, 7]);
    assert_eq!(parse_expected_exit_codes(&[]).unwrap(), vec![0]);
    assert!(matches!(
        parse_expected_exit_codes(&texts(&["1,,2"])),
        Err(CaptureFault::EmptyCode)
    ));
    match parse_expected_exit_codes(&texts(&["x"])) {
        Err(CaptureFault::BadCode { code }) => assert_eq!(code, "x"),
        other => panic!("{other:?}"),
    }
}

#[test]
fn requests_are_refused_before_anything_is_started() {
    let argv = texts(&["echo", "ok"]);
    let ask = |limits: CaptureLimits, argv: &[String], active: bool| {
        capture_request(limits, argv, &[], &guard(), active)
    };
    let mut zero = limits();
    zero.show_lines = 0;
    assert!(matches!(ask(zero, &argv, false), Err(CaptureFault::ZeroLines)));
    let mut zero = limits();
    zero.show_bytes_per_stream = 0;
    assert!(matches!(ask(zero, &argv, false), Err(CaptureFault::ZeroBytes)));
    let mut zero = limits();
    zero.show_line_chars = 0;
    assert!(matches!(ask(zero, &argv, false), Err(CaptureFault::ZeroLineChars)));
    assert!(matches!(ask(limits(), &[], false), Err(CaptureFault::NoCommand)));
    assert!(matches!(
        ask(limits(), &texts(&["--max-lines", "3"]), false),
        Err(CaptureFault::RenamedFlag { .. })
    ));
    match ask(limits(), &texts(&["git", "clean", "-fd"]), false) {
        Err(fault) => assert!(fault.message().contains("git clean"), "{}", fault.message()),
        Ok(_) => panic!("git clean was let through"),
    }
    let overridden = ask(limits(), &texts(&["rm", "-r", "generated"]), true).unwrap();
    assert!(overridden.overridden.unwrap().contains("generated"));
    let plain = ask(limits(), &argv, false).unwrap();
    assert!(plain.overridden.is_none());
    assert_eq!(plain.expected_exit_codes, vec![0]);
}

#[test]
fn the_status_of_the_child_is_passed_on() {
    let strict = ReceiptOptions { fail_if_truncated: true, require_complete_scope: false };
    let plain = ReceiptOptions { fail_if_truncated: false, require_complete_scope: false };
    let child = ChildExit { code: Some(3), signal: None };
    assert!(child.exit_expected(&[0, 3]));
    assert!(!child.exit_expected(&[0]));
    assert!(!child.exited_with_zero());
    assert_eq!(ChildExit { code: None, signal: Some(9) }.exit_status(), 137);
    assert_eq!(ChildExit { code: None, signal: None }.exit_status(), 1);
    assert!(matches!(
        finish_capture(plain, false, true, true, true, child),
        CaptureEnd::Success
    ));
    assert!(matches!(
        finish_capture(strict, false, true, true, true, child),
        CaptureEnd::Strict(ReceiptFailure::TruncatedOutput)
    ));
    match finish_capture(plain, false, true, false, false, child) {
        CaptureEnd::ChildStatus { status, strict } => {
            assert_eq!(status, 3);
            assert!(strict.is_none());
        }
        other => panic!("{other:?}"),
    }
    assert!(matches!(
        finish_capture(plain, true, true, false, true, child),
        CaptureEnd::SidecarFailed
    ));
}

#[test]
fn the_receipt_counts_the_lines_of_both_streams() {
    let command = CapturedCommand {
        argv: texts(&["echo", "ok"]),
        effective_argv: texts(&["/bin/echo", "ok"]),
        execution_mode: "native",
        executable: ExecutableIdentity::Observed { path: "/bin/echo".to_owned() },
        child: ChildExit { code: Some(0), signal: None },
        expected_exit_codes: vec![0],
        duration_ms: 5,
        stdout: render_captured_stream(read_captured_stream(b"a\nb\nc\n", 4096), 2, 120),
        stderr: render_captured_stream(read_captured_stream(b"", 4096), 0, 120),
    };
    let receipt = command.receipt(Some("demo"), limits(), true);
    assert_eq!(receipt.result.total, 3);
    assert_eq!(receipt.result.shown, 2);
    assert!(receipt.output_truncated());
    let value = receipt.into_value(5);
    assert_eq!(value.get("command").unwrap().as_text().unwrap(), "capture");
    assert_eq!(value.get("output_truncated").unwrap().to_compact(), "true");
    assert_eq!(value.get("argv").unwrap().to_compact(), "[\"echo\",\"ok\"]");
    assert!(!command.lines().is_empty());
    assert!(value.get("encoding_suspects").is_none());
}

#[test]
fn double_encoded_output_is_disclosed() {
    let stream = |text: &str| {
        render_captured_stream(read_captured_stream(text.as_bytes(), 4096), 8, 120)
    };
    let command = CapturedCommand {
        argv: texts(&["tool"]),
        effective_argv: texts(&["tool"]),
        execution_mode: "native",
        executable: ExecutableIdentity::Unobserved { error: "none".to_owned() },
        child: ChildExit { code: Some(0), signal: None },
        expected_exit_codes: vec![0],
        duration_ms: 1,
        stdout: stream("caf\u{c3}\u{a9}\n"),
        stderr: stream("ok \u{fffd}\nna\u{c3}\u{af}ve\n"),
    };
    let value = command.receipt(None, limits(), true).into_value(1);
    let found = value.get("encoding_suspects").unwrap();
    assert_eq!(found.get("double_encoded").unwrap().to_compact(), "2");
    assert_eq!(found.get("replacement_characters").unwrap().to_compact(), "0");
    let sample = found.get("sample").unwrap();
    assert_eq!(sample.get("line").unwrap().to_compact(), "1");
    assert!(command.lines().last().unwrap().contains("double_encoded=2"));
}

#[test]
fn no_character_of_utf8_is_lost() {
    let text = "h\u{e9}\u{3bb}\u{1F600}\n".repeat(20);
    let raw = read_captured_stream(text.as_bytes(), 4096);
    assert_eq!(retained_stream_text(&raw), text);
}
