use contextmink::slice::{
    plan_slice_window, slice_chars, slice_lines, slice_mode, SliceFault, SliceMode,
    SliceWindowPlan, SliceWindowRequest,
};
use contextmink::text::{parse_line_range, RangeFault};

fn numbered(n: usize) -> Vec<String> {
    (1..=n).map(|i| format!("line {i}")).collect()
}

#[test]
fn slice_tail_cap_is_end_anchored() {
    let plan = plan_slice_window(100, SliceWindowRequest::Tail { lines: 40 }, 10).unwrap();
    assert_eq!(
        plan,
        SliceWindowPlan {
            start: 91,
            end: 100,
            output_truncated: true,
        }
    );
}

#[test]
fn slice_tail_shorter_than_file_and_cap_is_complete() {
    let plan = plan_slice_window(100, SliceWindowRequest::Tail { lines: 10 }, 40).unwrap();
    assert_eq!(
        plan,
        SliceWindowPlan {
            start: 91,
            end: 100,
            output_truncated: false,
        }
    );
}

#[test]
fn slice_window_clips_to_available_lines() {
    let plan =
        plan_slice_window(12, SliceWindowRequest::Inclusive { start: 10, end: 30 }, 50).unwrap();
    assert_eq!(
        plan,
        SliceWindowPlan {
            start: 10,
            end: 12,
            output_truncated: false,
        }
    );
}

#[test]
fn slice_window_rejects_zero_and_inverted_bounds() {
    assert!(
        plan_slice_window(12, SliceWindowRequest::Inclusive { start: 0, end: 3 }, 10,).is_err()
    );
    assert!(
        plan_slice_window(12, SliceWindowRequest::Inclusive { start: 4, end: 3 }, 10,).is_err()
    );
    assert!(plan_slice_window(12, SliceWindowRequest::Tail { lines: 0 }, 10).is_err());
    assert!(plan_slice_window(12, SliceWindowRequest::Tail { lines: 3 }, 0).is_err());
}

#[test]
fn a_capped_window_names_what_is_left() {
    let lines = numbered(30);
    let request = SliceWindowRequest::Inclusive { start: 5, end: 20 };
    let sliced = slice_lines(&lines, request, 4, 120).unwrap();
    assert_eq!(sliced.lines, &lines[4..8]);
    assert!(sliced.plan.output_truncated);
    assert_eq!(sliced.remaining_range.as_deref(), Some("9:20"));
    let receipt = sliced.receipt(None, "a.txt", "utf-8", true);
    assert!(receipt.output_truncated());
    assert_eq!(receipt.result.total, 30);
    assert_eq!(receipt.result.shown, 4);
    assert!(sliced.rows()[0].contains("line 5"));
    assert!(sliced.rows()[3].contains("line 8"));
    assert_eq!(
        sliced.rows()[4],
        "[contextmink] capped slice at 4 lines; request a narrower range."
    );
    assert_eq!(sliced.rows().len(), 5);
}

#[test]
fn long_lines_are_cut() {
    let lines = vec!["abcdefghij".to_owned()];
    let request = SliceWindowRequest::Inclusive { start: 1, end: 1 };
    let sliced = slice_lines(&lines, request, 4, 5).unwrap();
    assert!(sliced.cut);
    assert_eq!(sliced.lines, vec!["ab...".to_owned()]);
    assert!(sliced.receipt(None, "a.txt", "utf-8", false).output_truncated());
}

#[test]
fn a_window_of_characters_counts_characters() {
    let sliced = slice_chars("éclair", 1, 3);
    assert_eq!(sliced.text, "cla");
    assert_eq!(sliced.shown, 3);
    assert_eq!(sliced.total_chars, 6);
    let receipt = sliced.receipt(Some("demo"), "a.txt", "utf-8", true);
    assert_eq!(receipt.result.shown, 3);
}

#[test]
fn the_modes_exclude_each_other() {
    assert_eq!(
        slice_mode(None, Some(3), None, 0, 9).unwrap(),
        SliceMode::Lines(SliceWindowRequest::Tail { lines: 3 })
    );
    assert_eq!(
        slice_mode(Some("2:4"), None, None, 0, 9).unwrap(),
        SliceMode::Lines(SliceWindowRequest::Inclusive { start: 2, end: 4 })
    );
    assert_eq!(
        slice_mode(None, None, Some(7), 5, 9).unwrap(),
        SliceMode::Chars { start: 7, count: 5 }
    );
    assert!(matches!(
        slice_mode(Some("1:2"), Some(1), None, 0, 9),
        Err(SliceFault::MixedWindows)
    ));
    assert!(matches!(
        slice_mode(Some("1:2"), None, Some(0), 5, 9),
        Err(SliceFault::MixedModes)
    ));
    assert!(matches!(
        slice_mode(None, None, Some(0), 0, 9),
        Err(SliceFault::ZeroChars)
    ));
}

#[test]
fn ranges_are_read() {
    assert_eq!(parse_line_range("2:4").unwrap(), (2, 4));
    assert!(matches!(parse_line_range("24"), Err(RangeFault::NoColon)));
    assert!(matches!(parse_line_range("2:"), Err(RangeFault::OpenEnd)));
    assert!(matches!(parse_line_range("x:4"), Err(RangeFault::BadStart)));
    assert!(matches!(parse_line_range("2:y"), Err(RangeFault::BadEnd)));
    assert!(matches!(parse_line_range("0:4"), Err(RangeFault::LineZero)));
    assert!(matches!(parse_line_range("5:4"), Err(RangeFault::Inverted)));
    assert_eq!(
        RangeFault::BadEnd.message("2:y"),
        "invalid slice --range end: y"
    );
    let mixed = slice_mode(Some("x:4"), None, None, 0, 9).unwrap_err();
    assert_eq!(mixed.message("x:4"), "invalid slice --range start: x");
}

#[test]
fn suspects_anywhere_in_the_file_are_disclosed() {
    let mut lines = numbered(9);
    let request = SliceWindowRequest::Inclusive { start: 1, end: 2 };
    let clean = slice_lines(&lines, request, 4, 120).unwrap();
    let value = clean.receipt(None, "a.txt", "utf8", true).into_value(0);
    assert!(value.get("encoding_suspects").is_none());
    lines[7] = "caf\u{c3}\u{a9}".to_owned();
    let sliced = slice_lines(&lines, request, 4, 120).unwrap();
    for with_lines in [true, false] {
        let value = sliced.receipt(None, "a.txt", "utf8", with_lines).into_value(0);
        let found = value.get("encoding_suspects").unwrap();
        assert_eq!(found.get("double_encoded").unwrap().to_compact(), "1");
    }
    assert!(sliced.rows().last().unwrap().contains("encoding suspects"));
}

#[test]
fn a_character_window_ends_its_last_line_once() {
    assert_eq!(slice_chars("a\nb", 0, 2).rows(), vec!["a".to_owned()]);
    assert_eq!(slice_chars("a\nb", 0, 3).rows(), vec!["a\nb".to_owned()]);
}
