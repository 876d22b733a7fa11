use contextmink::json::{json_text, JsonValue};
use contextmink::output::{
    clamp_text, clamp_text_with_status, elapsed_ms, fail_after_receipt, no_match_scope, Receipt,
    ReceiptCap, ReceiptFailure, ReceiptOptions, ReceiptResult, TextClamp,
};

fn shown(value: &JsonValue, key: &str) -> String {
    value.get(key).unwrap().to_compact()
}

fn item<'a>(value: &'a JsonValue, key: &str, index: usize) -> &'a JsonValue {
    match value.get(key).unwrap() {
        JsonValue::Array(items) => &items[index],
        other => panic!("{other:?}"),
    }
}

fn length(value: &JsonValue, key: &str) -> usize {
    match value.get(key).unwrap() {
        JsonValue::Array(items) => items.len(),
        other => panic!("{other:?}"),
    }
}

#[test]
fn clamp_text_is_character_safe() {
    assert_eq!(clamp_text("abcdef", 0), "");
    assert_eq!(clamp_text("abcdef", 1), ".");
    assert_eq!(clamp_text("abcdef", 2), "..");
    assert_eq!(clamp_text("abcdef", 3), "...");
    assert_eq!(clamp_text("abcdef", 4), "a...");
    assert_eq!(clamp_text("éclair", 5), "éc...");
    assert_eq!(clamp_text("éclair", 5).chars().count(), 5);
    assert_eq!(clamp_text("abc", 3), "abc");
    assert_eq!(clamp_text("a->b", 20), "a->b");
}

#[test]
fn text_clamp_records_character_omissions_once_for_a_receipt() {
    let mut clamp = TextClamp::new(3, "--show-line-chars");
    assert_eq!(clamp.clamp("abc"), "abc");
    assert_eq!(clamp.clamp("éclair"), "...");

    let mut receipt = Receipt::new("slice", None, ReceiptResult::new("lines", 2, false, 2));
    clamp.add_receipt_cap(&mut receipt);
    let value = receipt.into_value(0);
    assert_eq!(shown(&value, "output_truncated"), "true");
    assert_eq!(shown(&value, "complete"), "false");
    assert_eq!(length(&value, "caps"), 1);
    assert_eq!(shown(item(&value, "caps", 0), "dimension"), "\"line_characters\"");
    assert_eq!(shown(item(&value, "caps", 0), "limit"), "3");
    assert_eq!(shown(&value, "output_cap_arguments"), "[\"--show-line-chars\"]");
    assert!(item(&value, "caps", 0).get("argument").is_none());
}

#[test]
fn receipt_v2_derives_completion_from_structured_caps() {
    let mut receipt = Receipt::new(
        "grep",
        Some("demo"),
        ReceiptResult::new("matching_files", 12, true, 3),
    );
    receipt.add_cap(ReceiptCap::scope("candidate_files", Some(100)));
    receipt.add_cap(ReceiptCap::output(
        "matching_files",
        Some(3),
        "--show-files",
    ));
    receipt.add_cap(ReceiptCap::output(
        "line_characters",
        Some(9),
        "--show-line-chars",
    ));
    receipt.add_cap(ReceiptCap::output("paths", Some(3), "--show-files"));
    receipt.insert("pattern", json_text("needle"));

    assert!(!receipt.scope_complete());
    assert!(receipt.output_truncated());

    let value = receipt.into_value(0);
    assert_eq!(shown(&value, "schema"), "\"contextmink.receipt.v2\"");
    assert_eq!(shown(&value, "scope_complete"), "false");
    assert_eq!(shown(&value, "output_truncated"), "true");
    assert_eq!(shown(&value, "complete"), "false");
    let result = value.get("result").unwrap();
    assert_eq!(shown(result, "unit"), "\"matching_files\"");
    assert_eq!(shown(result, "shown"), "3");
    assert_eq!(shown(result, "total"), "12");
    assert_eq!(shown(result, "total_is_lower_bound"), "true");
    assert_eq!(shown(item(&value, "caps", 0), "boundary"), "\"scope\"");
    assert_eq!(shown(item(&value, "caps", 0), "dimension"), "\"candidate_files\"");
    assert_eq!(shown(item(&value, "caps", 0), "limit"), "100");
    assert_eq!(shown(item(&value, "caps", 1), "boundary"), "\"output\"");
    assert_eq!(shown(&value, "pattern"), "\"needle\"");
    assert_eq!(
        shown(&value, "output_cap_arguments"),
        "[\"--show-files\",\"--show-line-chars\"]",
        "every exhausted output control is named once, scope caps never"
    );
    assert!(value.get("truncated").is_none());
    assert!(value.get("cap_reason").is_none());
    assert!(value.get("unit").is_none());
    assert!(value.get("shown").is_none());
    assert!(value.get("total").is_none());
}

#[test]
fn receipt_without_caps_is_complete() {
    let receipt = Receipt::new("files", None, ReceiptResult::new("files", 5, false, 5));
    assert!(receipt.scope_complete());
    assert!(!receipt.output_truncated());

    let value = receipt.into_value(0);
    assert_eq!(shown(&value, "profile"), "null");
    assert_eq!(shown(&value, "caps"), "[]");
    assert_eq!(shown(&value, "complete"), "true");
    assert!(value.get("output_cap_arguments").is_none());
}

#[test]
fn scope_only_caps_name_no_output_arguments() {
    let mut receipt = Receipt::new("sqlite", None, ReceiptResult::new("rows", 5, true, 5));
    receipt.add_cap(ReceiptCap::scope("rows_processed", Some(5)));
    let value = receipt.into_value(0);
    assert_eq!(shown(&value, "output_truncated"), "false");
    assert!(value.get("output_cap_arguments").is_none());
}

#[test]
fn clamping_never_shows_more_than_asked() {
    for text in ["", "a", "abcd", "éèêë and more"] {
        for limit in 0..8usize {
            let cut = clamp_text_with_status(text, limit);
            assert!(cut.text.chars().count() <= limit);
            assert_eq!(cut.truncated, text.chars().count() > limit);
            assert_eq!(cut.text == text, !cut.truncated);
        }
    }
}

#[test]
fn strict_options_fail_after_the_receipt() {
    let strict = ReceiptOptions { fail_if_truncated: true, require_complete_scope: true };
    let plain = ReceiptOptions { fail_if_truncated: false, require_complete_scope: false };
    assert!(fail_after_receipt(plain, false, true).is_ok());
    assert!(fail_after_receipt(strict, true, false).is_ok());
    assert!(matches!(
        fail_after_receipt(strict, false, true),
        Err(ReceiptFailure::IncompleteScope)
    ));
    assert!(matches!(
        fail_after_receipt(strict, true, true),
        Err(ReceiptFailure::TruncatedOutput)
    ));
}

#[test]
fn durations_are_held_within_a_word() {
    assert_eq!(elapsed_ms(17), 17);
    assert_eq!(elapsed_ms(u128::MAX), u64::MAX);
    assert_eq!(no_match_scope(false, true), None);
    assert!(no_match_scope(true, true).is_some());
    assert_ne!(no_match_scope(true, true), no_match_scope(true, false));
}
